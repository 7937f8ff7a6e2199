//! Which JPEG files may be handed to the decoder.
//!
//! Of a file the decoder is only given what it is known to get through: frames whose
//! first component is sampled most finely, markers that follow one another without
//! gaps, and sequential frames whose DC coefficients stay within 32 bits.

use crate::jpeg_scan::{
    check_running_sums, check_without_restarts, find_table, no_sums, sums_stay, table_before,
    without_restarts, PlaceView, ScanPlan, ScanView,
};
use vstd::prelude::*;

verus! {

pub const MARK: u8 = 0xff;

pub const FRAME_PROGRESSIVE: u8 = 0xc2;

pub const DEFINE_HUFFMAN: u8 = 0xc4;

pub const END_OF_IMAGE: u8 = 0xd9;

pub const START_OF_SCAN: u8 = 0xda;

pub const DEFINE_QUANTIZERS: u8 = 0xdb;

pub const DEFINE_RESTART: u8 = 0xdd;

pub const APP_JFIF: u8 = 0xe0;

pub const APP_ADOBE: u8 = 0xee;

pub const COMMENT: u8 = 0xfe;

/// The largest DC category of the Huffman tables that stand in for missing ones.
pub const DEFAULT_CATEGORY: u8 = 11;

/// The largest product of a DC coefficient and its quantizer: rounding adds 1028.
pub const DC_LIMIT: u64 = 2_147_482_619;

/// Sides that can be rounded up to whole blocks in 16 bits.
pub const ROUNDABLE_SIDE: u16 = 65528;

/// Two bytes as a number, the larger half first.
pub open spec fn be16(file: Seq<u8>, at: int) -> int {
    file[at] * 256 + file[at + 1]
}

pub(crate) fn read_be16(file: &[u8], at: usize) -> (r: u16)
    requires
        at + 1 < file@.len(),
    ensures
        r == be16(file@, at as int),
{
    file[at] as u16 * 256 + file[at + 1] as u16
}

/// The greatest of the DC quantizers that a segment defines from `at` on, and
/// `most`; nothing where the segment does not end with a table.
pub open spec fn greatest_step(file: Seq<u8>, at: int, end: int, most: int) -> Option<int>
    decreases end - at,
{
    if at >= end {
        Some(most)
    } else {
        let wide = file[at] as int / 16;
        let next = at + 65 + 64 * wide;
        if wide > 1 || next > end {
            None
        } else {
            let step = if wide == 0 {
                file[at + 1] as int
            } else {
                be16(file, at + 1)
            };
            greatest_step(
                file,
                next,
                end,
                if step > most {
                    step
                } else {
                    most
                },
            )
        }
    }
}

fn find_greatest_step(file: &[u8], from: usize, end: usize, known: u16) -> (r: Option<u16>)
    requires
        from <= end <= file@.len(),
    ensures
        match greatest_step(file@, from as int, end as int, known as int) {
            Some(s) => r matches Some(x) && x == s,
            None => r is None,
        },
{
    let mut at: usize = from;
    let mut most: u16 = known;
    while at < end
        invariant
            from <= at <= end <= file@.len(),
            greatest_step(file@, from as int, end as int, known as int) == greatest_step(
                file@,
                at as int,
                end as int,
                most as int,
            ),
        decreases end - at,
    {
        let wide: u8 = file[at] / 16;
        if wide > 1 {
            return None;
        }
        let size: usize = if wide == 0 {
            65
        } else {
            129
        };
        if size > end - at {
            return None;
        }
        let step: u16 = if wide == 0 {
            file[at + 1] as u16
        } else {
            read_be16(file, at + 1)
        };
        if step > most {
            most = step;
        }
        at += size;
    }
    Some(most)
}

/// The sum of `n` bytes.
pub open spec fn byte_sum(file: Seq<u8>, at: int, n: int) -> int
    decreases n,
{
    if n <= 0 {
        0
    } else {
        byte_sum(file, at, n - 1) + file[at + n - 1]
    }
}

/// The greatest of `n` bytes, and `most`.
pub open spec fn greatest_byte(file: Seq<u8>, at: int, n: int, most: int) -> int
    decreases n,
{
    if n <= 0 {
        most
    } else {
        let before = greatest_byte(file, at, n - 1, most);
        if file[at + n - 1] > before {
            file[at + n - 1] as int
        } else {
            before
        }
    }
}

pub(crate) fn add_bytes(file: &[u8], at: usize, n: usize) -> (r: usize)
    requires
        at + n <= file@.len(),
        n <= 16,
    ensures
        r == byte_sum(file@, at as int, n as int),
        r <= 255 * n,
{
    let len: usize = file.len();
    let mut sum: usize = 0;
    let mut i: usize = 0;
    while i < n
        invariant
            i <= n,
            n <= 16,
            len == file@.len(),
            at + n <= len,
            sum == byte_sum(file@, at as int, i as int),
            sum <= 255 * i,
        decreases n - i,
    {
        sum += file[at + i] as usize;
        i += 1;
    }
    sum
}

fn find_greatest_byte(file: &[u8], at: usize, n: usize, known: u8) -> (r: u8)
    requires
        at + n <= file@.len(),
    ensures
        r == greatest_byte(file@, at as int, n as int, known as int),
{
    let len: usize = file.len();
    let mut most: u8 = known;
    let mut i: usize = 0;
    while i < n
        invariant
            i <= n,
            len == file@.len(),
            at + n <= len,
            most == greatest_byte(file@, at as int, i as int, known as int),
        decreases n - i,
    {
        if file[at + i] > most {
            most = file[at + i];
        }
        i += 1;
    }
    most
}

/// The greatest category in the DC tables that a segment defines from `at` on, and
/// `most`; nothing where the segment does not end with a table, or a category is
/// beyond 15.
pub open spec fn greatest_category(file: Seq<u8>, at: int, end: int, most: int) -> Option<int>
    decreases end - at,
{
    if at >= end {
        Some(most)
    } else if at + 17 > end {
        None
    } else {
        let symbols = byte_sum(file, at + 1, 16);
        let found = if file[at] < 16 {
            greatest_byte(file, at + 17, symbols, most)
        } else {
            most
        };
        if at + 17 + symbols > end || symbols < 0 || found > 15 {
            None
        } else {
            greatest_category(file, at + 17 + symbols, end, found)
        }
    }
}

fn find_greatest_category(file: &[u8], from: usize, end: usize, known: u8) -> (r: Option<u8>)
    requires
        from <= end <= file@.len(),
        known <= 15,
    ensures
        match greatest_category(file@, from as int, end as int, known as int) {
            Some(c) => r matches Some(x) && x == c && x <= 15,
            None => r is None,
        },
{
    let mut at: usize = from;
    let mut most: u8 = known;
    while at < end
        invariant
            from <= at <= end <= file@.len(),
            most <= 15,
            greatest_category(file@, from as int, end as int, known as int) == greatest_category(
                file@,
                at as int,
                end as int,
                most as int,
            ),
        decreases end - at,
    {
        if end - at < 17 {
            return None;
        }
        let symbols: usize = add_bytes(file, at + 1, 16);
        if symbols > end - at - 17 {
            return None;
        }
        let found: u8 = if file[at] < 16 {
            find_greatest_byte(file, at + 17, symbols, most)
        } else {
            most
        };
        if found > 15 {
            return None;
        }
        most = found;
        at += 17 + symbols;
    }
    Some(most)
}

/// What the markers before the first scan say.
#[verifier::ext_equal]
pub struct HeadView {
    /// Where the frame's marker stands, or 0.
    pub frame: int,
    /// The greatest DC quantizer.
    pub step: int,
    /// The greatest DC category.
    pub category: int,
    /// Where the marker of the first scan stands.
    pub scan: int,
}

#[derive(Clone, Copy)]
pub struct Head {
    pub frame: usize,
    pub step: u16,
    pub category: u8,
    pub scan: usize,
}

impl Head {
    pub open spec fn view(&self) -> HeadView {
        HeadView {
            frame: self.frame as int,
            step: self.step as int,
            category: self.category as int,
            scan: self.scan as int,
        }
    }
}

/// A marker whose segment changes nothing here: comments, restart intervals and
/// application data. Adobe's colour transform has to come before the frame.
pub open spec fn passed_over(code: u8, size: int, framed: bool) -> bool {
    ||| code == DEFINE_RESTART
    ||| code == COMMENT
    ||| 0xe0 <= code <= 0xef && (code == APP_JFIF ==> size != 6) && (code == APP_ADOBE ==> !framed)
}

/// A marker of a frame that is coded by Huffman tables.
pub open spec fn opens_frame(code: u8) -> bool {
    0xc0 <= code <= 0xc2
}

/// What the markers from `at` up to the first scan say, with what is known before
/// them; nothing where a segment is cut off or cannot be passed.
pub open spec fn head_from(file: Seq<u8>, at: int, h: HeadView) -> Option<HeadView>
    decreases file.len() - at,
{
    if at < 0 || at + 4 > file.len() || file[at] != MARK {
        None
    } else {
        let code = file[at + 1];
        let size = be16(file, at + 2);
        let end = at + 2 + size;
        if size < 2 || end > file.len() {
            None
        } else if code == START_OF_SCAN {
            if h.frame > 0 {
                Some(HeadView { scan: at, ..h })
            } else {
                None
            }
        } else if opens_frame(code) {
            if h.frame > 0 {
                None
            } else {
                head_from(file, end, HeadView { frame: at, ..h })
            }
        } else if code == DEFINE_QUANTIZERS {
            match greatest_step(file, at + 4, end, h.step) {
                Some(step) => head_from(file, end, HeadView { step, ..h }),
                None => None,
            }
        } else if code == DEFINE_HUFFMAN {
            match greatest_category(file, at + 4, end, h.category) {
                Some(category) => head_from(file, end, HeadView { category, ..h }),
                None => None,
            }
        } else if passed_over(code, size, h.frame > 0) {
            head_from(file, end, h)
        } else {
            None
        }
    }
}

/// What is known before the first marker.
pub open spec fn no_head() -> HeadView {
    HeadView { frame: 0, step: 0, category: DEFAULT_CATEGORY as int, scan: 0 }
}

/// What the markers of a file say, from behind the two bytes that begin it.
pub open spec fn head_of(file: Seq<u8>) -> Option<HeadView> {
    if file.len() < 2 || file[0] != MARK || file[1] != 0xd8 {
        None
    } else {
        head_from(file, 2, no_head())
    }
}

fn read_head(file: &[u8]) -> (r: Option<Head>)
    ensures
        match head_of(file@) {
            Some(h) => r matches Some(x) && x@ == h && x.category <= 15 && 0 < x.frame && x.frame
                + 2 + be16(file@, x.frame + 2) <= x.scan && x.scan + 2 + be16(file@, x.scan + 2)
                <= file@.len() && x.scan + 4 <= file@.len() && be16(file@, x.frame + 2) >= 2
                && be16(file@, x.scan + 2) >= 2,
            None => r is None,
        },
{
    if file.len() < 2 || file[0] != MARK || file[1] != 0xd8 {
        return None;
    }
    let mut h: Head = Head { frame: 0, step: 0, category: DEFAULT_CATEGORY, scan: 0 };
    let mut at: usize = 2;
    assert(h@ == no_head());
    while at < file.len()
        invariant
            2 <= at <= file@.len(),
            h.category <= 15,
            h.scan == 0,
            h.frame > 0 ==> h.frame + 4 <= at && h.frame + 2 + be16(file@, h.frame + 2) <= at
                && be16(file@, h.frame + 2) >= 2,
            head_of(file@) == head_from(file@, at as int, h@),
        decreases file@.len() - at,
    {
        if file.len() - at < 4 || file[at] != MARK {
            return None;
        }
        let code: u8 = file[at + 1];
        let size: usize = read_be16(file, at + 2) as usize;
        if size < 2 || size > file.len() - at - 2 {
            return None;
        }
        let end: usize = at + 2 + size;
        if code == START_OF_SCAN {
            if h.frame == 0 {
                return None;
            }
            let done: Head = Head { scan: at, ..h };
            assert(done@ == (HeadView { scan: at as int, ..h@ }));
            return Some(done);
        }
        let framed: bool = h.frame > 0;
        if 0xc0 <= code && code <= 0xc2 {
            if framed {
                return None;
            }
            h.frame = at;
        } else if code == DEFINE_QUANTIZERS {
            match find_greatest_step(file, at + 4, end, h.step) {
                Some(step) => {
                    h.step = step;
                },
                None => {
                    return None;
                },
            }
        } else if code == DEFINE_HUFFMAN {
            match find_greatest_category(file, at + 4, end, h.category) {
                Some(category) => {
                    h.category = category;
                },
                None => {
                    return None;
                },
            }
        } else if !(code == DEFINE_RESTART || code == COMMENT || (0xe0 <= code && code <= 0xef && (
        code != APP_JFIF || size != 6) && (code != APP_ADOBE || !framed))) {
            return None;
        }
        at = end;
    }
    None
}

/// The sampling factors of component `i`, across and down.
pub open spec fn sampling(file: Seq<u8>, frame: int, i: int) -> (int, int) {
    let s = file[frame + 11 + 3 * i] as int;
    (s / 16, s % 16)
}

/// Every component is sampled once or twice each way, and none more finely than the
/// first.
pub open spec fn first_is_finest(file: Seq<u8>, frame: int, n: int) -> bool {
    forall|i: int|
        0 <= i < n ==> {
            let (h, v) = #[trigger] sampling(file, frame, i);
            1 <= h <= 2 && 1 <= v <= 2 && h <= sampling(file, frame, 0).0 && v <= sampling(
                file,
                frame,
                0,
            ).1
        }
}

/// The frame has 8 bits a sample, pixels, and one, three or four components. Where
/// one component is said to be sampled twice, the sides can be rounded up.
pub open spec fn frame_fits(file: Seq<u8>, frame: int) -> bool {
    let size = be16(file, frame + 2);
    let height = be16(file, frame + 5);
    let width = be16(file, frame + 7);
    let n = file[frame + 9] as int;
    &&& size >= 8
    &&& size == 8 + 3 * n
    &&& file[frame + 4] == 8
    &&& height > 0
    &&& width > 0
    &&& n == 1 || n == 3 || n == 4
    &&& first_is_finest(file, frame, n)
    &&& n == 1 ==> sampling(file, frame, 0) == (1int, 1int) || (width <= ROUNDABLE_SIDE && height
        <= ROUNDABLE_SIDE)
}

fn check_frame(file: &[u8], frame: usize) -> (r: bool)
    requires
        frame + 4 <= file@.len(),
        frame + 2 + be16(file@, frame + 2) <= file@.len(),
    ensures
        r == frame_fits(file@, frame as int),
{
    let len: usize = file.len();
    let size: usize = read_be16(file, frame + 2) as usize;
    if size < 8 {
        return false;
    }
    let n: usize = file[frame + 9] as usize;
    if size != 8 + 3 * n || file[frame + 4] != 8 || !(n == 1 || n == 3 || n == 4) {
        return false;
    }
    let height: u16 = read_be16(file, frame + 5);
    let width: u16 = read_be16(file, frame + 7);
    if height == 0 || width == 0 {
        return false;
    }
    let (h0, v0): (u8, u8) = (file[frame + 11] / 16, file[frame + 11] % 16);
    assert(sampling(file@, frame as int, 0) == (h0 as int, v0 as int));
    let mut i: usize = 0;
    while i < n
        invariant
            i <= n <= 4,
            n == file@[frame + 9],
            len == file@.len(),
            frame + 10 + 3 * n <= len,
            sampling(file@, frame as int, 0) == (h0 as int, v0 as int),
            forall|k: int|
                0 <= k < i ==> {
                    let (h, v) = #[trigger] sampling(file@, frame as int, k);
                    1 <= h <= 2 && 1 <= v <= 2 && h <= h0 && v <= v0
                },
        decreases n - i,
    {
        let s: u8 = file[frame + 11 + 3 * i];
        let (h, v): (u8, u8) = (s / 16, s % 16);
        assert(sampling(file@, frame as int, i as int) == (h as int, v as int));
        if h < 1 || h > 2 || v < 1 || v > 2 || h > h0 || v > v0 {
            assert(!first_is_finest(file@, frame as int, n as int));
            return false;
        }
        i += 1;
    }
    n != 1 || (h0 == 1 && v0 == 1) || (width <= ROUNDABLE_SIDE && height <= ROUNDABLE_SIDE)
}

/// What may stand between scans: Huffman tables, quantizers, restart intervals,
/// comments and further scans.
pub open spec fn between_scans(code: u8) -> bool {
    code == DEFINE_HUFFMAN || code == START_OF_SCAN || code == DEFINE_QUANTIZERS || code
        == DEFINE_RESTART || code == COMMENT
}

/// From `at` on, up to the end of the image or of the file, there is coded data with
/// restart markers; in a progressive file with whole segments between its scans.
pub open spec fn scans_from(file: Seq<u8>, at: int, progressive: bool) -> bool
    decreases file.len() - at,
{
    if at + 1 >= file.len() {
        true
    } else {
        let code = file[at + 1];
        if file[at] != MARK || code == MARK {
            scans_from(file, at + 1, progressive)
        } else if code == 0 || 0xd0 <= code <= 0xd7 {
            scans_from(file, at + 2, progressive)
        } else if code == END_OF_IMAGE {
            true
        } else if progressive && between_scans(code) && at + 4 <= file.len() && be16(file, at + 2)
            >= 2 && at + 2 + be16(file, at + 2) <= file.len() {
            scans_from(file, at + 2 + be16(file, at + 2), progressive)
        } else {
            false
        }
    }
}

fn check_scans(file: &[u8], from: usize, progressive: bool) -> (r: bool)
    requires
        from <= file@.len(),
    ensures
        r == scans_from(file@, from as int, progressive),
{
    let len: usize = file.len();
    let mut at: usize = from;
    while at < len && len - at > 1
        invariant
            from <= at <= len,
            len == file@.len(),
            scans_from(file@, from as int, progressive) == scans_from(
                file@,
                at as int,
                progressive,
            ),
        decreases len - at,
    {
        let code: u8 = file[at + 1];
        if file[at] != MARK || code == MARK {
            at += 1;
        } else if code == 0 || (0xd0 <= code && code <= 0xd7) {
            at += 2;
        } else if code == END_OF_IMAGE {
            return true;
        } else if progressive && (code == DEFINE_HUFFMAN || code == START_OF_SCAN || code
            == DEFINE_QUANTIZERS || code == DEFINE_RESTART || code == COMMENT) && len - at >= 4 {
            let size: usize = read_be16(file, at + 2) as usize;
            if size < 2 || size > len - at - 2 {
                return false;
            }
            at += 2 + size;
        } else {
            return false;
        }
    }
    true
}

/// The largest difference of a category.
pub open spec fn largest_difference(category: int) -> int
    decreases category,
{
    if category <= 0 {
        0
    } else {
        2 * largest_difference(category - 1) + 1
    }
}

pub(crate) fn find_largest_difference(category: u8) -> (r: u64)
    requires
        category <= 15,
    ensures
        r == largest_difference(category as int),
        r <= 32767,
{
    let mut most: u64 = 0;
    let mut power: u64 = 1;
    let mut c: u8 = 0;
    proof {
        vstd::arithmetic::power2::lemma2_to64();
    }
    while c < category
        invariant
            c <= category <= 15,
            most == largest_difference(c as int),
            most == power - 1,
            power == vstd::arithmetic::power2::pow2(c as nat),
        decreases category - c,
    {
        proof {
            vstd::arithmetic::power2::lemma_pow2_unfold((c + 1) as nat);
            vstd::arithmetic::power2::lemma2_to64();
            if c < 14 {
                vstd::arithmetic::power2::lemma_pow2_strictly_increases(c as nat, 14);
            }
        }
        most = 2 * most + 1;
        power = 2 * power;
        c += 1;
    }
    proof {
        vstd::arithmetic::power2::lemma2_to64();
        if category < 15 {
            vstd::arithmetic::power2::lemma_pow2_strictly_increases(category as nat, 15);
        }
    }
    most
}

/// How many blocks the first component has, with those that fill the last ones up.
pub open spec fn most_blocks(file: Seq<u8>, frame: int) -> int {
    let (h, v) = sampling(file, frame, 0);
    (be16(file, frame + 7) + 8 * h - 1) / (8 * h) * ((be16(file, frame + 5) + 8 * v - 1) / (8 * v))
        * (h * v)
}

fn count_units(side: u64, factor: u64) -> (r: u64)
    requires
        side <= 65535,
        factor == 1 || factor == 2,
    ensures
        r == (side + 8 * factor - 1) / (8 * factor as int),
        r <= 8192,
{
    if factor == 1 {
        (side + 7) / 8
    } else {
        (side + 15) / 16
    }
}

fn count_blocks(file: &[u8], frame: usize) -> (r: u64)
    requires
        frame + 12 <= file@.len(),
        frame_fits(file@, frame as int),
    ensures
        r == most_blocks(file@, frame as int),
        r <= 268435456,
{
    let len: usize = file.len();
    assert(frame + 12 <= len);
    let height: u64 = read_be16(file, frame + 5) as u64;
    let width: u64 = read_be16(file, frame + 7) as u64;
    let h: u64 = (file[frame + 11] / 16) as u64;
    let v: u64 = (file[frame + 11] % 16) as u64;
    proof {
        assert(sampling(file@, frame as int, 0) == (h as int, v as int));
    }
    assert(h == 1 || h == 2);
    assert(v == 1 || v == 2);
    let across: u64 = count_units(width, h);
    let down: u64 = count_units(height, v);
    proof {
        assert(across * down <= 67108864) by (nonlinear_arith)
            requires
                across <= 8192,
                down <= 8192,
        ;
        assert(h * v <= 4) by (nonlinear_arith)
            requires
                1 <= h <= 2,
                1 <= v <= 2,
        ;
        assert(across * down * (h * v) <= 268435456) by (nonlinear_arith)
            requires
                0 <= across * down <= 67108864,
                0 <= h * v <= 4,
        ;
    }
    across * down * (h * v)
}

/// However the differences of a sequential frame turn out, its DC coefficients
/// stay within 32 bits when they are multiplied by their quantizers.
pub open spec fn sums_fit(file: Seq<u8>, head: HeadView) -> bool {
    most_blocks(file, head.frame) * largest_difference(head.category) * head.step <= DC_LIMIT
}

fn check_sums(file: &[u8], head: Head) -> (r: bool)
    requires
        head.frame + 12 <= file@.len(),
        head.category <= 15,
        frame_fits(file@, head.frame as int),
    ensures
        r == sums_fit(file@, head@),
{
    let blocks: u64 = count_blocks(file, head.frame);
    let most: u64 = find_largest_difference(head.category);
    let step: u64 = head.step as u64;
    proof {
        assert(blocks * most <= 8795824586752) by (nonlinear_arith)
            requires
                0 <= blocks <= 268435456,
                0 <= most <= 32767,
        ;
        assert(blocks * most * step <= 576434364292792320) by (nonlinear_arith)
            requires
                0 <= blocks * most <= 8795824586752,
                0 <= step <= 65535,
        ;
    }
    blocks * most * step <= DC_LIMIT
}

/// The units that the blocks of a frame are coded in: as many blocks of each component
/// as it has samples for one of the coarsest.
pub open spec fn units_of(file: Seq<u8>, frame: int) -> int {
    let (h, v) = sampling(file, frame, 0);
    (be16(file, frame + 7) + 8 * h - 1) / (8 * h) * ((be16(file, frame + 5) + 8 * v - 1) / (8 * v))
}

fn count_all_units(file: &[u8], frame: usize) -> (r: u64)
    requires
        frame + 12 <= file@.len(),
        frame_fits(file@, frame as int),
    ensures
        r == units_of(file@, frame as int),
{
    let len: usize = file.len();
    assert(frame + 12 <= len);
    let height: u64 = read_be16(file, frame + 5) as u64;
    let width: u64 = read_be16(file, frame + 7) as u64;
    let h: u64 = (file[frame + 11] / 16) as u64;
    let v: u64 = (file[frame + 11] % 16) as u64;
    assert(sampling(file@, frame as int, 0) == (h as int, v as int));
    let across: u64 = count_units(width, h);
    let down: u64 = count_units(height, v);
    assert(across * down <= 67108864) by (nonlinear_arith)
        requires
            across <= 8192,
            down <= 8192,
    ;
    across * down
}

/// The DC table that a scan names for component `i`, 0 where there is none.
pub open spec fn dc_table_of(file: Seq<u8>, scan: int, i: int) -> int {
    table_before(file, 2, scan, file[scan + 6 + 2 * i] as int / 16, 0)
}

/// The AC table that a scan names for component `i`, 0 where there is none.
pub open spec fn ac_table_of(file: Seq<u8>, scan: int, i: int) -> int {
    table_before(file, 2, scan, 16 + file[scan + 6 + 2 * i] as int % 16, 0)
}

/// Blocks of component `i` in a unit.
pub open spec fn blocks_of(file: Seq<u8>, frame: int, i: int) -> int {
    sampling(file, frame, i).0 * sampling(file, frame, i).1
}

/// What the scan of a frame of `n` components is read with.
pub open spec fn scan_plan(file: Seq<u8>, head: HeadView, n: int) -> ScanView {
    ScanView {
        dc: Seq::new(
            4,
            |i: int|
                if i < n {
                    dc_table_of(file, head.scan, i)
                } else {
                    0
                },
        ),
        ac: Seq::new(
            4,
            |i: int|
                if i < n {
                    ac_table_of(file, head.scan, i)
                } else {
                    0
                },
        ),
        blocks: Seq::new(
            4,
            |i: int|
                if i < n {
                    blocks_of(file, head.frame, i)
                } else {
                    0
                },
        ),
        bound: DC_LIMIT as int / head.step,
    }
}

/// The name of component `i` of a frame.
pub open spec fn frame_name(file: Seq<u8>, frame: int, i: int) -> u8 {
    file[frame + 10 + 3 * i]
}

/// The scan names component `i` as the frame does, and a table of either class for it.
pub open spec fn component_follows(file: Seq<u8>, frame: int, scan: int, i: int) -> bool {
    &&& file[scan + 5 + 2 * i] == frame_name(file, frame, i)
    &&& dc_table_of(file, scan, i) > 0
    &&& ac_table_of(file, scan, i) > 0
}

/// No two of the `n` components of a frame have the same name.
pub open spec fn names_apart(file: Seq<u8>, frame: int, n: int) -> bool {
    forall|i: int, j: int|
        0 <= i < j < n ==> #[trigger] frame_name(file, frame, i) != #[trigger] frame_name(
            file,
            frame,
            j,
        )
}

/// The scan names the `n` components as the frame does, no two alike, with a table of
/// either class for each.
pub open spec fn scan_follows_frame(file: Seq<u8>, head: HeadView, n: int) -> bool {
    &&& be16(file, head.scan + 2) == 6 + 2 * n
    &&& names_apart(file, head.frame, n)
    &&& forall|i: int|
        0 <= i < n ==> #[trigger] component_follows(file, head.frame, head.scan, i)
}

/// The DC coefficients of a sequential frame, as its data codes them, stay within 32
/// bits when they are multiplied by any of its quantizers.
pub open spec fn running_sums_fit(file: Seq<u8>, head: HeadView) -> bool {
    let n = file[head.frame + 9] as int;
    let behind = head.scan + 2 + be16(file, head.scan + 2);
    &&& head.step > 0
    &&& n == 1 ==> sampling(file, head.frame, 0) == (1int, 1int)
    &&& without_restarts(file, 2, head.scan)
    &&& scan_follows_frame(file, head, n)
    &&& sums_stay(
        file,
        scan_plan(file, head, n),
        PlaceView { at: behind, used: 0 },
        0,
        units_of(file, head.frame),
        no_sums(),
    )
}

fn names_differ(file: &[u8], frame: usize, n: usize) -> (r: bool)
    requires
        frame + 10 + 3 * n <= file@.len(),
        n <= 4,
    ensures
        r == names_apart(file@, frame as int, n as int),
{
    let len: usize = file.len();
    let mut j: usize = 0;
    while j < n
        invariant
            j <= n <= 4,
            len == file@.len(),
            frame + 10 + 3 * n <= len,
            names_apart(file@, frame as int, j as int),
        decreases n - j,
    {
        let mut i: usize = 0;
        while i < j
            invariant
                i <= j < n <= 4,
                len == file@.len(),
                frame + 10 + 3 * n <= len,
                forall|a: int|
                    0 <= a < i ==> #[trigger] frame_name(file@, frame as int, a) != frame_name(
                        file@,
                        frame as int,
                        j as int,
                    ),
            decreases j - i,
        {
            if file[frame + 10 + 3 * i] == file[frame + 10 + 3 * j] {
                assert(frame_name(file@, frame as int, i as int) == frame_name(
                    file@,
                    frame as int,
                    j as int,
                ));
                return false;
            }
            i += 1;
        }
        j += 1;
    }
    true
}

/// The tables and the blocks of a component.
struct ComponentPlan {
    dc: usize,
    ac: usize,
    blocks: u64,
}

fn plan_component(file: &[u8], frame: usize, scan: usize, n: usize, i: usize) -> (r: Option<
    ComponentPlan,
>)
    requires
        i < n <= 4,
        17 <= file@.len(),
        frame + 10 + 3 * n <= file@.len(),
        scan + 8 + 2 * n <= file@.len(),
        first_is_finest(file@, frame as int, n as int),
    ensures
        r is Some == component_follows(file@, frame as int, scan as int, i as int),
        r matches Some(p) ==> p.dc == dc_table_of(file@, scan as int, i as int) && p.ac
            == ac_table_of(file@, scan as int, i as int) && p.blocks == blocks_of(
            file@,
            frame as int,
            i as int,
        ) && p.dc + 17 <= file@.len() && p.ac + 17 <= file@.len() && p.blocks <= 4,
{
    let len: usize = file.len();
    assert(frame + 10 + 3 * n <= len && scan + 8 + 2 * n <= len);
    let tables: u8 = file[scan + 6 + 2 * i];
    let dc: usize = find_table(file, scan, tables / 16);
    let ac: usize = find_table(file, scan, 16 + tables % 16);
    let s: u8 = file[frame + 11 + 3 * i];
    let (h, v): (u8, u8) = (s / 16, s % 16);
    proof {
        assert(sampling(file@, frame as int, i as int) == (h as int, v as int));
        assert(h * v <= 4) by (nonlinear_arith)
            requires
                1 <= h <= 2,
                1 <= v <= 2,
        ;
    }
    if file[scan + 5 + 2 * i] != file[frame + 10 + 3 * i] || dc == 0 || ac == 0 {
        return None;
    }
    Some(ComponentPlan { dc, ac, blocks: h as u64 * v as u64 })
}

fn check_running(file: &[u8], head: Head) -> (r: bool)
    requires
        head.frame + 12 <= file@.len(),
        file@.len() <= u32::MAX,
        frame_fits(file@, head.frame as int),
        head.frame + 2 + be16(file@, head.frame + 2) <= head.scan,
        head.scan + 4 <= file@.len(),
        head.scan + 2 + be16(file@, head.scan + 2) <= file@.len(),
    ensures
        r == running_sums_fit(file@, head@),
{
    let len: usize = file.len();
    let frame: usize = head.frame;
    let scan: usize = head.scan;
    let n: usize = file[frame + 9] as usize;
    let size: usize = read_be16(file, scan + 2) as usize;
    let ghost plan = scan_plan(file@, head@, n as int);
    proof {
        let s = file@[frame + 11] as int;
        assert(sampling(file@, frame as int, 0) == (s / 16, s % 16));
    }
    if head.step == 0 || (n == 1 && file[frame + 11] != 0x11) || size != 6 + 2 * n {
        return false;
    }
    if !check_without_restarts(file, scan) || !names_differ(file, frame, n) {
        return false;
    }
    let mut dc: [usize; 4] = [0, 0, 0, 0];
    let mut ac: [usize; 4] = [0, 0, 0, 0];
    let mut blocks: [u64; 4] = [0, 0, 0, 0];
    let mut i: usize = 0;
    while i < n
        invariant
            i <= n <= 4,
            n == file@[frame + 9],
            len == file@.len(),
            head@.frame == frame,
            head@.scan == scan,
            frame + 10 + 3 * n <= len,
            scan + 8 + 2 * n <= len,
            17 <= len,
            first_is_finest(file@, frame as int, n as int),
            forall|k: int|
                0 <= k < i ==> #[trigger] component_follows(file@, frame as int, scan as int, k),
            forall|k: int| 0 <= k < 4 ==> (#[trigger] dc@[k]) + 17 <= len,
            forall|k: int| 0 <= k < 4 ==> (#[trigger] ac@[k]) + 17 <= len,
            forall|k: int| 0 <= k < 4 ==> (#[trigger] blocks@[k]) <= 4,
            forall|k: int|
                0 <= k < i ==> (#[trigger] dc@[k]) == dc_table_of(file@, scan as int, k),
            forall|k: int|
                0 <= k < i ==> (#[trigger] ac@[k]) == ac_table_of(file@, scan as int, k),
            forall|k: int|
                0 <= k < i ==> (#[trigger] blocks@[k]) == blocks_of(file@, frame as int, k),
            forall|k: int| i <= k < 4 ==> (#[trigger] dc@[k]) == 0,
            forall|k: int| i <= k < 4 ==> (#[trigger] ac@[k]) == 0,
            forall|k: int| i <= k < 4 ==> (#[trigger] blocks@[k]) == 0,
        decreases n - i,
    {
        match plan_component(file, frame, scan, n, i) {
            None => {
                assert(!component_follows(file@, head@.frame, head@.scan, i as int));
                return false;
            },
            Some(p) => {
                dc[i] = p.dc;
                ac[i] = p.ac;
                blocks[i] = p.blocks;
            },
        }
        i += 1;
    }
    let bound: u64 = DC_LIMIT / head.step as u64;
    let found: ScanPlan = ScanPlan { dc, ac, blocks, bound: bound as i64 };
    assert(found@.dc =~= plan.dc);
    assert(found@.ac =~= plan.ac);
    assert(found@.blocks =~= plan.blocks);
    assert(found@ == plan);
    check_running_sums(file, &found, scan + 2 + size, count_all_units(file, frame))
}

/// A file that the decoder gets through: its markers follow one another, its frame
/// has the first component sampled most finely, and it is progressive, or has one
/// scan of all its components whose DC coefficients stay within 32 bits.
pub open spec fn decodable_frame(file: Seq<u8>) -> bool {
    match head_of(file) {
        None => false,
        Some(head) => {
            let progressive = file[head.frame + 1] == FRAME_PROGRESSIVE;
            let behind = head.scan + 2 + be16(file, head.scan + 2);
            &&& file.len() <= u32::MAX
            &&& frame_fits(file, head.frame)
            &&& scans_from(file, behind, progressive)
            &&& progressive || (be16(file, head.scan + 2) > 2 && file[head.scan + 4]
                == file[head.frame + 9] && (sums_fit(file, head) || running_sums_fit(
                file,
                head,
            )))
        },
    }
}

/// Whether a file may be handed to the decoder.
pub fn is_decodable_frame(file: &[u8]) -> (b: bool)
    ensures
        b == decodable_frame(file@),
{
    let len: usize = file.len();
    match read_head(file) {
        None => false,
        Some(head) => {
            if len as u64 > u32::MAX as u64 || !check_frame(file, head.frame) {
                return false;
            }
            let progressive: bool = file[head.frame + 1] == FRAME_PROGRESSIVE;
            let size: usize = read_be16(file, head.scan + 2) as usize;
            check_scans(file, head.scan + 2 + size, progressive) && (progressive || (size > 2
                && file[head.scan + 4] == file[head.frame + 9] && (check_sums(file, head)
                || check_running(file, head))))
        },
    }
}

} // verus!
