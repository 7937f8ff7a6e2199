//! The DC coefficients that the coded data of a sequential JPEG scan adds up to.
//!
//! The data is read bit by bit, as Huffman codes with the bits that follow them, for
//! no more than to know how far the running sums of the DC differences go.

use crate::jpeg_frame::{
    add_bytes, be16, byte_sum, find_largest_difference, largest_difference, read_be16,
    DEFINE_HUFFMAN, DEFINE_RESTART, MARK,
};
use vstd::prelude::*;

verus! {

/// What the bit behind `used` others of a byte is worth.
pub open spec fn weight(used: int) -> int {
    if used <= 0 {
        128
    } else if used == 1 {
        64
    } else if used == 2 {
        32
    } else if used == 3 {
        16
    } else if used == 4 {
        8
    } else if used == 5 {
        4
    } else if used == 6 {
        2
    } else {
        1
    }
}

fn find_weight(used: u8) -> (r: u8)
    ensures
        r == weight(used as int),
        r > 0,
{
    if used == 0 {
        128
    } else if used == 1 {
        64
    } else if used == 2 {
        32
    } else if used == 3 {
        16
    } else if used == 4 {
        8
    } else if used == 5 {
        4
    } else if used == 6 {
        2
    } else {
        1
    }
}

/// A place in coded data: a byte, and how many of its bits are read.
#[derive(Clone, Copy)]
pub struct Place {
    pub at: usize,
    pub used: u8,
}

/// A place as plain values.
pub struct PlaceView {
    pub at: int,
    pub used: int,
}

impl View for Place {
    type V = PlaceView;

    open spec fn view(&self) -> PlaceView {
        PlaceView { at: self.at as int, used: self.used as int }
    }
}

/// The bit at a place and the place behind it; nothing where the data ends. A zero
/// byte is stuffed behind every byte of ones.
pub open spec fn next_bit(file: Seq<u8>, p: PlaceView) -> Option<(int, PlaceView)> {
    if p.at < 0 || p.at >= file.len() || (file[p.at] == MARK && (p.at + 1 >= file.len()
        || file[p.at + 1] != 0)) {
        None
    } else {
        let bit = file[p.at] as int / weight(p.used) % 2;
        let behind = if p.used < 7 {
            PlaceView { used: p.used + 1, ..p }
        } else if file[p.at] == MARK {
            PlaceView { at: p.at + 2, used: 0 }
        } else {
            PlaceView { at: p.at + 1, used: 0 }
        };
        Some((bit, behind))
    }
}

fn read_bit(file: &[u8], p: Place) -> (r: Option<(u8, Place)>)
    ensures
        match next_bit(file@, p@) {
            Some((b, q)) => r matches Some((c, t)) && c == b && c <= 1 && t@ == q,
            None => r is None,
        },
{
    let len: usize = file.len();
    if p.at >= len {
        return None;
    }
    let byte: u8 = file[p.at];
    if byte == MARK && (len - p.at < 2 || file[p.at + 1] != 0) {
        return None;
    }
    let bit: u8 = byte / find_weight(p.used) % 2;
    let behind: Place = if p.used < 7 {
        Place { at: p.at, used: p.used + 1 }
    } else if byte == MARK {
        Place { at: p.at + 2, used: 0 }
    } else {
        Place { at: p.at + 1, used: 0 }
    };
    Some((bit, behind))
}

/// `n` more bits behind those that make `sum`, and the place behind them.
pub open spec fn bits_from(file: Seq<u8>, p: PlaceView, n: int, sum: int) -> Option<
    (int, PlaceView),
>
    decreases n,
{
    if n <= 0 {
        Some((sum, p))
    } else {
        match next_bit(file, p) {
            Some((b, q)) => bits_from(file, q, n - 1, 2 * sum + b),
            None => None,
        }
    }
}

fn read_bits(file: &[u8], from: Place, n: u8) -> (r: Option<(u32, Place)>)
    requires
        n <= 15,
    ensures
        match bits_from(file@, from@, n as int, 0) {
            Some((v, q)) => r matches Some((x, t)) && x == v && x <= 32767 && t@ == q,
            None => r is None,
        },
{
    let mut p: Place = from;
    let mut sum: u32 = 0;
    let mut most: u32 = 1;
    let mut left: u8 = n;
    while left > 0
        invariant
            left <= n <= 15,
            sum < most,
            most == doubled(n - left),
            bits_from(file@, from@, n as int, 0) == bits_from(
                file@,
                p@,
                left as int,
                sum as int,
            ),
        decreases left,
    {
        proof {
            lemma_doubled(n - left);
            lemma_doubled(n - left + 1);
        }
        match read_bit(file, p) {
            Some((b, q)) => {
                sum = 2 * sum + b as u32;
                p = q;
            },
            None => {
                return None;
            },
        }
        most = 2 * most;
        left -= 1;
    }
    proof {
        lemma_doubled(n as int);
    }
    Some((sum, p))
}

/// One, doubled `n` times.
spec fn doubled(n: int) -> int
    decreases n,
{
    if n <= 0 {
        1
    } else {
        2 * doubled(n - 1)
    }
}

proof fn lemma_doubled(n: int)
    requires
        n <= 16,
    ensures
        1 <= doubled(n) <= 65536,
        n <= 15 ==> doubled(n) <= 32768,
{
    reveal_with_fuel(doubled, 18);
}

/// The symbol whose code begins with the `len - 1` bits that make `code`, by the
/// Huffman table at `table`, and the place behind it. `first` is the least code of
/// length `len`, and `index` the number of shorter ones.
pub open spec fn symbol_from(
    file: Seq<u8>,
    table: int,
    p: PlaceView,
    len: int,
    code: int,
    first: int,
    index: int,
) -> Option<(u8, PlaceView)>
    decreases 17 - len,
{
    if len > 16 {
        None
    } else {
        match next_bit(file, p) {
            None => None,
            Some((b, q)) => {
                let c = 2 * code + b;
                let count = file[table + len] as int;
                if first <= c < first + count {
                    let entry = table + 17 + index + c - first;
                    if entry < file.len() {
                        Some((file[entry], q))
                    } else {
                        None
                    }
                } else {
                    symbol_from(file, table, q, len + 1, c, 2 * (first + count), index + count)
                }
            },
        }
    }
}

/// The symbol at a place by the Huffman table at `table`, and the place behind it.
pub open spec fn symbol_at(file: Seq<u8>, table: int, p: PlaceView) -> Option<(u8, PlaceView)> {
    symbol_from(file, table, p, 1, 0, 0, 0)
}

fn read_symbol(file: &[u8], table: usize, from: Place) -> (r: Option<(u8, Place)>)
    requires
        table + 17 <= file@.len(),
        file@.len() <= u32::MAX,
    ensures
        match symbol_at(file@, table as int, from@) {
            Some((s, q)) => r matches Some((x, t)) && x == s && t@ == q,
            None => r is None,
        },
{
    let size: usize = file.len();
    let mut p: Place = from;
    let mut len: usize = 1;
    let mut code: u64 = 0;
    let mut first: u64 = 0;
    let mut index: u64 = 0;
    let mut most: u64 = 1;
    while len <= 16
        invariant
            1 <= len <= 17,
            size == file@.len(),
            table + 17 <= size <= u32::MAX,
            most == doubled(len - 1),
            code < most,
            first <= 1024 * (most - 1),
            index <= 255 * (len - 1),
            symbol_at(file@, table as int, from@) == symbol_from(
                file@,
                table as int,
                p@,
                len as int,
                code as int,
                first as int,
                index as int,
            ),
        decreases 17 - len,
    {
        proof {
            lemma_doubled(len - 1);
            lemma_doubled(len as int);
        }
        match read_bit(file, p) {
            None => {
                return None;
            },
            Some((b, q)) => {
                code = 2 * code + b as u64;
                p = q;
            },
        }
        let count: u64 = file[table + len] as u64;
        if first <= code && code < first + count {
            let entry: u64 = table as u64 + 17 + index + (code - first);
            if entry < size as u64 {
                return Some((file[entry as usize], p));
            }
            return None;
        }
        first = 2 * (first + count);
        index = index + count;
        most = 2 * most;
        len += 1;
    }
    None
}

/// The difference that `v` stands for in category `s`: the lower half of the values
/// counts from below.
pub open spec fn difference(v: int, s: int) -> int {
    if 2 * v <= largest_difference(s) {
        v - largest_difference(s)
    } else {
        v
    }
}

/// A DC difference and the place behind it.
pub open spec fn dc_at(file: Seq<u8>, table: int, p: PlaceView) -> Option<(int, PlaceView)> {
    match symbol_at(file, table, p) {
        None => None,
        Some((s, q)) => if s > 15 {
            None
        } else {
            match bits_from(file, q, s as int, 0) {
                None => None,
                Some((v, t)) => Some((difference(v, s as int), t)),
            }
        },
    }
}

fn read_dc(file: &[u8], table: usize, p: Place) -> (r: Option<(i64, Place)>)
    requires
        table + 17 <= file@.len(),
        file@.len() <= u32::MAX,
    ensures
        match dc_at(file@, table as int, p@) {
            Some((d, q)) => r matches Some((x, t)) && x == d && -32767 <= x <= 32767 && t@ == q,
            None => r is None,
        },
{
    match read_symbol(file, table, p) {
        None => None,
        Some((s, q)) => {
            if s > 15 {
                return None;
            }
            match read_bits(file, q, s) {
                None => None,
                Some((v, t)) => {
                    let most: i64 = find_largest_difference(s) as i64;
                    if 2 * v as i64 <= most {
                        Some((v as i64 - most, t))
                    } else {
                        Some((v as i64, t))
                    }
                },
            }
        },
    }
}

/// The place behind the AC coefficients of a block from number `k` on; nothing where
/// they run beyond the block.
pub open spec fn ac_from(file: Seq<u8>, table: int, p: PlaceView, k: int) -> Option<PlaceView>
    decreases 80 - k,
{
    if k >= 64 {
        Some(p)
    } else {
        match symbol_at(file, table, p) {
            None => None,
            Some((symbol, q)) => {
                let run = symbol as int / 16;
                let s = symbol as int % 16;
                if s == 0 && run == 15 {
                    ac_from(file, table, q, k + 16)
                } else if s == 0 {
                    Some(q)
                } else if k + run > 63 {
                    None
                } else {
                    match bits_from(file, q, s, 0) {
                        None => None,
                        Some((v, t)) => ac_from(file, table, t, k + run + 1),
                    }
                }
            },
        }
    }
}

fn skip_ac(file: &[u8], table: usize, from: Place) -> (r: Option<Place>)
    requires
        table + 17 <= file@.len(),
        file@.len() <= u32::MAX,
    ensures
        match ac_from(file@, table as int, from@, 1) {
            Some(q) => r matches Some(t) && t@ == q,
            None => r is None,
        },
{
    let mut p: Place = from;
    let mut k: u32 = 1;
    while k < 64
        invariant
            k <= 80,
            table + 17 <= file@.len(),
            file@.len() <= u32::MAX,
            ac_from(file@, table as int, from@, 1) == ac_from(
                file@,
                table as int,
                p@,
                k as int,
            ),
        decreases 80 - k,
    {
        match read_symbol(file, table, p) {
            None => {
                return None;
            },
            Some((symbol, q)) => {
                let run: u32 = symbol as u32 / 16;
                let s: u8 = symbol % 16;
                if s == 0 && run == 15 {
                    p = q;
                    k += 16;
                } else if s == 0 {
                    return Some(q);
                } else if k + run > 63 {
                    return None;
                } else {
                    match read_bits(file, q, s) {
                        None => {
                            return None;
                        },
                        Some((_, t)) => {
                            p = t;
                            k += run + 1;
                        },
                    }
                }
            },
        }
    }
    Some(p)
}

/// What a scan is read with: for each of four components its DC and its AC table and
/// its blocks in a unit, none for those that are not there; and how far the sums of DC
/// differences may go either way.
pub struct ScanPlan {
    pub dc: [usize; 4],
    pub ac: [usize; 4],
    pub blocks: [u64; 4],
    pub bound: i64,
}

/// A plan as plain values.
pub struct ScanView {
    pub dc: Seq<int>,
    pub ac: Seq<int>,
    pub blocks: Seq<int>,
    pub bound: int,
}

impl View for ScanPlan {
    type V = ScanView;

    open spec fn view(&self) -> ScanView {
        ScanView {
            dc: Seq::new(4, |i: int| self.dc@[i] as int),
            ac: Seq::new(4, |i: int| self.ac@[i] as int),
            blocks: Seq::new(4, |i: int| self.blocks@[i] as int),
            bound: self.bound as int,
        }
    }
}

impl ScanView {
    /// Blocks of a unit.
    pub open spec fn unit(self) -> int {
        self.blocks[0] + self.blocks[1] + self.blocks[2] + self.blocks[3]
    }

    /// The component of block `j` of a unit.
    pub open spec fn component(self, j: int) -> int {
        if j < self.blocks[0] {
            0
        } else if j < self.blocks[0] + self.blocks[1] {
            1
        } else if j < self.blocks[0] + self.blocks[1] + self.blocks[2] {
            2
        } else {
            3
        }
    }
}

/// The data from `p` on holds `left` more units, the first of them from its block `j`
/// on, and the sums of the DC differences, `sums` so far, stay within their bound.
pub open spec fn sums_stay(
    file: Seq<u8>,
    plan: ScanView,
    p: PlaceView,
    j: int,
    left: int,
    sums: Seq<int>,
) -> bool
    decreases
            left,
            (if j < plan.unit() {
                plan.unit() - j
            } else {
                0
            }),
{
    if left <= 0 {
        true
    } else if j >= plan.unit() {
        sums_stay(file, plan, p, 0, left - 1, sums)
    } else {
        let c = plan.component(j);
        match dc_at(file, plan.dc[c], p) {
            None => false,
            Some((d, q)) => {
                let sum = sums[c] + d;
                &&& -plan.bound <= sum <= plan.bound
                &&& match ac_from(file, plan.ac[c], q, 1) {
                    None => false,
                    Some(t) => sums_stay(file, plan, t, j + 1, left, sums.update(c, sum)),
                }
            },
        }
    }
}

/// Sums that hold nothing yet.
pub open spec fn no_sums() -> Seq<int> {
    seq![0, 0, 0, 0]
}

/// Whether the sums of the DC differences of all units stay within their bound.
pub fn check_running_sums(file: &[u8], plan: &ScanPlan, from: usize, units: u64) -> (r: bool)
    requires
        file@.len() <= u32::MAX,
        0 <= plan.bound <= i64::MAX / 2,
        forall|i: int|
            0 <= i < 4 ==> (#[trigger] plan.dc@[i]) + 17 <= file@.len() && plan.ac@[i] + 17
                <= file@.len(),
        forall|i: int| 0 <= i < 4 ==> #[trigger] plan.blocks@[i] <= 4,
    ensures
        r == sums_stay(
            file@,
            plan@,
            (PlaceView { at: from as int, used: 0 }),
            0,
            units as int,
            no_sums(),
        ),
{
    let first: u64 = plan.blocks[0];
    let second: u64 = first + plan.blocks[1];
    let third: u64 = second + plan.blocks[2];
    let unit: u64 = third + plan.blocks[3];
    let ghost start = PlaceView { at: from as int, used: 0 };
    let ghost total = sums_stay(file@, plan@, start, 0, units as int, no_sums());
    let mut sums: [i64; 4] = [0, 0, 0, 0];
    let mut p: Place = Place { at: from, used: 0 };
    let mut left: u64 = units;
    let mut j: u64 = 0;
    assert(sums_view(sums@) =~= no_sums());
    while left > 0
        invariant
            file@.len() <= u32::MAX,
            0 <= plan.bound <= i64::MAX / 2,
            forall|i: int|
                0 <= i < 4 ==> (#[trigger] plan.dc@[i]) + 17 <= file@.len() && plan.ac@[i] + 17
                    <= file@.len(),
            forall|i: int|
                0 <= i < 4 ==> -plan.bound <= (#[trigger] sums@[i]) <= plan.bound,
            first == plan@.blocks[0],
            second == plan@.blocks[0] + plan@.blocks[1],
            third == plan@.blocks[0] + plan@.blocks[1] + plan@.blocks[2],
            unit == plan@.unit(),
            j <= unit <= 16,
            start == (PlaceView { at: from as int, used: 0 }),
            total == sums_stay(file@, plan@, start, 0, units as int, no_sums()),
            total == sums_stay(
                file@,
                plan@,
                p@,
                j as int,
                left as int,
                sums_view(sums@),
            ),
        decreases left, unit - j,
    {
        if j >= unit {
            j = 0;
            left -= 1;
        } else {
            let c: usize = if j < first {
                0
            } else if j < second {
                1
            } else if j < third {
                2
            } else {
                3
            };
            assert(c == plan@.component(j as int));
            assert(plan@.dc[c as int] == plan.dc@[c as int]);
            assert(plan@.ac[c as int] == plan.ac@[c as int]);
            match read_dc(file, plan.dc[c], p) {
                None => {
                    return false;
                },
                Some((d, q)) => {
                    let sum: i64 = sums[c] + d;
                    if sum < -plan.bound || sum > plan.bound {
                        return false;
                    }
                    match skip_ac(file, plan.ac[c], q) {
                        None => {
                            return false;
                        },
                        Some(t) => {
                            let ghost before = sums_view(sums@);
                            sums[c] = sum;
                            assert(sums_view(sums@) =~= before.update(c as int, sum as int));
                            p = t;
                            j += 1;
                        },
                    }
                },
            }
        }
    }
    true
}

/// Sums as plain values.
spec fn sums_view(sums: Seq<i64>) -> Seq<int> {
    Seq::new(4, |i: int| sums[i] as int)
}

/// The last Huffman table of a class and number among those of a segment, `found`
/// where there is none.
pub open spec fn table_within(file: Seq<u8>, at: int, end: int, id: int, found: int) -> int
    decreases end - at,
{
    let symbols = byte_sum(file, at + 1, 16);
    if at + 17 > end || symbols < 0 || at + 17 + symbols > end {
        found
    } else {
        table_within(
            file,
            at + 17 + symbols,
            end,
            id,
            if file[at] == id {
                at
            } else {
                found
            },
        )
    }
}

fn find_table_within(file: &[u8], from: usize, end: usize, id: u8, known: usize) -> (r: usize)
    requires
        from <= end <= file@.len(),
        known + 17 <= file@.len(),
    ensures
        r == table_within(file@, from as int, end as int, id as int, known as int),
        r + 17 <= file@.len(),
{
    let len: usize = file.len();
    let mut at: usize = from;
    let mut found: usize = known;
    while end - at >= 17
        invariant
            at <= end <= len,
            len == file@.len(),
            found + 17 <= len,
            table_within(file@, from as int, end as int, id as int, known as int)
                == table_within(file@, at as int, end as int, id as int, found as int),
        decreases end - at,
    {
        let symbols: usize = add_bytes(file, at + 1, 16);
        if symbols > end - at - 17 {
            return found;
        }
        if file[at] == id {
            found = at;
        }
        at = at + 17 + symbols;
    }
    found
}

/// The last Huffman table of a class and number among the segments from `at` up to
/// the scan, `found` where there is none.
pub open spec fn table_before(file: Seq<u8>, at: int, scan: int, id: int, found: int) -> int
    decreases scan - at,
{
    if at < 0 || at + 4 > scan || scan > file.len() || be16(file, at + 2) < 2 || at + 2 + be16(
        file,
        at + 2,
    ) > scan {
        found
    } else {
        let end = at + 2 + be16(file, at + 2);
        table_before(
            file,
            end,
            scan,
            id,
            if file[at + 1] == DEFINE_HUFFMAN {
                table_within(file, at + 4, end, id, found)
            } else {
                found
            },
        )
    }
}

/// Finds the Huffman table of a class and number that a scan is read with; 0 where
/// there is none.
pub fn find_table(file: &[u8], scan: usize, id: u8) -> (r: usize)
    requires
        17 <= file@.len(),
        scan <= file@.len(),
    ensures
        r == table_before(file@, 2, scan as int, id as int, 0),
        r + 17 <= file@.len(),
{
    let len: usize = file.len();
    let mut at: usize = 2;
    let mut found: usize = 0;
    while at <= scan && scan - at >= 4
        invariant
            scan <= len,
            len == file@.len(),
            found + 17 <= len,
            table_before(file@, 2, scan as int, id as int, 0) == table_before(
                file@,
                at as int,
                scan as int,
                id as int,
                found as int,
            ),
        decreases scan - at,
    {
        let size: usize = read_be16(file, at + 2) as usize;
        if size < 2 || size > scan - at - 2 {
            return found;
        }
        let end: usize = at + 2 + size;
        if file[at + 1] == DEFINE_HUFFMAN {
            if size == 2 || size == 3 {
                assert(table_within(file@, at + 4, end as int, id as int, found as int) == found);
            } else {
                found = find_table_within(file, at + 4, end, id, found);
            }
        }
        at = end;
    }
    found
}

/// None of the segments from `at` up to the scan sets an interval of restarts.
pub open spec fn without_restarts(file: Seq<u8>, at: int, scan: int) -> bool
    decreases scan - at,
{
    if at < 0 || at + 4 > scan || scan > file.len() || be16(file, at + 2) < 2 || at + 2 + be16(
        file,
        at + 2,
    ) > scan {
        true
    } else {
        file[at + 1] != DEFINE_RESTART && without_restarts(
            file,
            at + 2 + be16(file, at + 2),
            scan,
        )
    }
}

/// Whether no segment before a scan sets an interval of restarts.
pub fn check_without_restarts(file: &[u8], scan: usize) -> (r: bool)
    requires
        scan <= file@.len(),
    ensures
        r == without_restarts(file@, 2, scan as int),
{
    let len: usize = file.len();
    let mut at: usize = 2;
    while at <= scan && scan - at >= 4
        invariant
            scan <= len,
            len == file@.len(),
            without_restarts(file@, 2, scan as int) == without_restarts(
                file@,
                at as int,
                scan as int,
            ),
        decreases scan - at,
    {
        let size: usize = read_be16(file, at + 2) as usize;
        if size < 2 || size > scan - at - 2 {
            return true;
        }
        if file[at + 1] == DEFINE_RESTART {
            return false;
        }
        at = at + 2 + size;
    }
    true
}

} // verus!
