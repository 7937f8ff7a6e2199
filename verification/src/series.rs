//! The series of a measuring run: which encoders it compares, what they are called
//! and drawn with, and at which quality they run.

use crate::amount::{clamped, clamped_spec, Amount};
use crate::cfl::{round_ties_away, rounded_away};
use crate::text::{decimal, decimal_text, equals_ignoring_case, same_but_case};
use vstd::prelude::*;
use vstd::string::*;

verus! {

/// How the JPEG reference is encoded.
#[derive(Clone, Copy, Debug, PartialEq, Eq, Structural)]
pub enum JpegTool {
    /// Takes a distance.
    Cjpegli,
    /// Takes a quality.
    Cjpeg,
    /// The encoder that is built in.
    Builtin,
}

/// The best JPEG encoder that is there.
pub fn jpeg_tool(cjpegli: bool, cjpeg: bool) -> (r: JpegTool)
    ensures
        r == (if cjpegli {
            JpegTool::Cjpegli
        } else if cjpeg {
            JpegTool::Cjpeg
        } else {
            JpegTool::Builtin
        }),
{
    if cjpegli {
        JpegTool::Cjpegli
    } else if cjpeg {
        JpegTool::Cjpeg
    } else {
        JpegTool::Builtin
    }
}

/// Which encoder a series drives.
#[derive(Clone, Copy, Debug, PartialEq, Eq, Structural)]
pub enum SeriesKind {
    Jixel,
    /// The reference encoder at an effort.
    Cjxl(u32),
    Aom,
    Jpeg(JpegTool),
}

/// One series where `there`, none elsewhere.
pub open spec fn one_if(there: bool, kind: SeriesKind) -> Seq<SeriesKind> {
    if there {
        seq![kind]
    } else {
        Seq::empty()
    }
}

/// The series of a run: the encoder itself, the reference encoder at every effort,
/// and the references in other formats.
pub open spec fn planned_series(
    efforts: Seq<u32>,
    with_cjxl: bool,
    with_aom: bool,
    jpeg: Option<JpegTool>,
) -> Seq<SeriesKind> {
    seq![SeriesKind::Jixel] + (if with_cjxl {
        Seq::new(efforts.len(), |i: int| SeriesKind::Cjxl(efforts[i]))
    } else {
        Seq::empty()
    }) + one_if(with_aom, SeriesKind::Aom) + (match jpeg {
        Some(tool) => seq![SeriesKind::Jpeg(tool)],
        None => Seq::empty(),
    })
}

/// Lists the series of a run.
pub fn plan_series(
    efforts: &Vec<u32>,
    with_cjxl: bool,
    with_aom: bool,
    jpeg: Option<JpegTool>,
) -> (r: Vec<SeriesKind>)
    ensures
        r@ == planned_series(efforts@, with_cjxl, with_aom, jpeg),
{
    let mut out: Vec<SeriesKind> = Vec::new();
    out.push(SeriesKind::Jixel);
    if with_cjxl {
        let mut i: usize = 0;
        while i < efforts.len()
            invariant
                i <= efforts@.len(),
                out@ == seq![SeriesKind::Jixel] + Seq::new(
                    i as nat,
                    |k: int| SeriesKind::Cjxl(efforts@[k]),
                ),
            decreases efforts@.len() - i,
        {
            let ghost was = out@;
            out.push(SeriesKind::Cjxl(efforts[i]));
            i += 1;
            assert(out@ =~= seq![SeriesKind::Jixel] + Seq::new(
                i as nat,
                |k: int| SeriesKind::Cjxl(efforts@[k]),
            ));
        }
    }
    let ghost head = out@;
    if with_aom {
        out.push(SeriesKind::Aom);
    }
    assert(out@ =~= head + one_if(with_aom, SeriesKind::Aom));
    if let Some(tool) = jpeg {
        out.push(SeriesKind::Jpeg(tool));
    }
    assert(out@ =~= planned_series(efforts@, with_cjxl, with_aom, jpeg));
    out
}

/// What a series is called.
pub open spec fn label_of(kind: SeriesKind) -> Seq<char> {
    match kind {
        SeriesKind::Jixel => "jixel"@,
        SeriesKind::Cjxl(effort) => "cjxl -e"@ + decimal(effort as int),
        SeriesKind::Aom => "libavif aom (AV1)"@,
        SeriesKind::Jpeg(JpegTool::Cjpegli) => "jpeg (cjpegli)"@,
        SeriesKind::Jpeg(JpegTool::Cjpeg) => "jpeg (cjpeg -optimize)"@,
        SeriesKind::Jpeg(JpegTool::Builtin) => "jpeg (image-rs)"@,
    }
}

/// Names a series.
pub fn series_label(kind: SeriesKind) -> (r: String)
    ensures
        r@ == label_of(kind),
{
    match kind {
        SeriesKind::Jixel => "jixel".to_owned(),
        SeriesKind::Cjxl(effort) => "cjxl -e".to_owned().concat(
            decimal_text(effort as u64).as_str(),
        ),
        SeriesKind::Aom => "libavif aom (AV1)".to_owned(),
        SeriesKind::Jpeg(JpegTool::Cjpegli) => "jpeg (cjpegli)".to_owned(),
        SeriesKind::Jpeg(JpegTool::Cjpeg) => "jpeg (cjpeg -optimize)".to_owned(),
        SeriesKind::Jpeg(JpegTool::Builtin) => "jpeg (image-rs)".to_owned(),
    }
}

/// A point between two ends, in whole steps.
pub open spec fn blended<A: Amount>(from: u8, to: u8, t: A) -> u8 {
    rounded_away(
        A::ratio_spec(from as i64, 1).plus_spec(
            A::ratio_spec((to - from) as i64, 1).times_spec(t),
        ),
    ).byte_spec()
}

fn blend<A: Amount>(from: u8, to: u8, t: A) -> (r: u8)
    ensures
        r == blended(from, to, t),
{
    let span: i64 = to as i64 - from as i64;
    round_ties_away(A::ratio(from as i64, 1).plus(A::ratio(span, 1).times(t))).byte()
}

/// How far the `k`th of `n` shades is on the way.
pub open spec fn shade<A: Amount>(k: int, n: int) -> A {
    if n <= 1 {
        A::zero_spec()
    } else {
        A::ratio_spec(k as i64, 1).over_spec(
            A::ratio_spec(n as i64, 1).minus_spec(A::ratio_spec(1, 1)),
        )
    }
}

/// The `k`th of `n` shades of blue, from light to dark.
pub fn cjxl_color<A: Amount>(k: u32, n: u32) -> (r: (u8, u8, u8))
    ensures
        r.0 == blended(0x6B, 0x08, shade::<A>(k as int, n as int)),
        r.1 == blended(0xAE, 0x30, shade::<A>(k as int, n as int)),
        r.2 == blended(0xD6, 0x6B, shade::<A>(k as int, n as int)),
{
    let t: A = if n <= 1 {
        A::zero()
    } else {
        A::ratio(k as i64, 1).over(A::ratio(n as i64, 1).minus(A::ratio(1, 1)))
    };
    (blend(0x6B, 0x08, t), blend(0xAE, 0x30, t), blend(0xD6, 0x6B, t))
}

/// The quality that comes closest to a distance, before it is made whole.
pub open spec fn raw_jpeg_quality<A: Amount>(d: A) -> A {
    let hundred = A::ratio_spec(100, 1);
    if d.at_most_spec(A::ratio_spec(1, 20)) {
        hundred
    } else if d.at_most_spec(A::ratio_spec(1, 10)) {
        hundred.minus_spec(d.over_spec(A::ratio_spec(1, 20)).log2_spec())
    } else if d.at_most_spec(A::ratio_spec(1, 1)) {
        A::ratio_spec(99, 1).minus_spec(
            A::ratio_spec(9, 1).times_spec(
                A::ratio_spec(1, 1).plus_spec(d.log10_spec()),
            ),
        )
    } else if d.at_most_spec(A::ratio_spec(32, 5)) {
        hundred.minus_spec(d.minus_spec(A::ratio_spec(1, 10)).over_spec(A::ratio_spec(9, 100)))
    } else {
        A::ratio_spec(30, 1).minus_spec(
            A::ratio_spec(5, 1).times_spec(
                d.minus_spec(A::ratio_spec(156, 25)).times_spec(A::ratio_spec(25, 4)).ln_spec(),
            ).over_spec(A::ratio_spec(5, 2).ln_spec()),
        )
    }
}

/// A quality made whole and held between 1 and 100.
pub open spec fn whole_quality<A: Amount>(q: A) -> u8 {
    clamped_spec(rounded_away(q), A::ratio_spec(1, 1), A::ratio_spec(100, 1)).byte_spec()
}

fn make_whole_quality<A: Amount>(q: A) -> (r: u8)
    ensures
        r == whole_quality(q),
{
    clamped(round_ties_away(q), A::ratio(1, 1), A::ratio(100, 1)).byte()
}

/// The JPEG quality that corresponds to a distance.
pub fn jpeg_quality_from_distance<A: Amount>(d: A) -> (r: u8)
    ensures
        r == whole_quality(raw_jpeg_quality(d)),
{
    let hundred: A = A::ratio(100, 1);
    let q: A = if d.at_most(A::ratio(1, 20)) {
        hundred
    } else if d.at_most(A::ratio(1, 10)) {
        hundred.minus(d.over(A::ratio(1, 20)).log2())
    } else if d.at_most(A::ratio(1, 1)) {
        A::ratio(99, 1).minus(
            A::ratio(9, 1).times(A::ratio(1, 1).plus(d.log10())),
        )
    } else if d.at_most(A::ratio(32, 5)) {
        hundred.minus(d.minus(A::ratio(1, 10)).over(A::ratio(9, 100)))
    } else {
        A::ratio(30, 1).minus(
            A::ratio(5, 1).times(
                d.minus(A::ratio(156, 25)).times(A::ratio(25, 4)).ln(),
            ).over(A::ratio(5, 2).ln()),
        )
    };
    make_whole_quality(q)
}

/// The AV1 quality that corresponds to a distance: ten steps for each unit.
pub fn distance_to_quality<A: Amount>(d: A) -> (r: u8)
    ensures
        r == whole_quality(
            A::ratio_spec(100, 1).minus_spec(A::ratio_spec(10, 1).times_spec(d)),
        ),
{
    make_whole_quality(A::ratio(100, 1).minus(A::ratio(10, 1).times(d)))
}

/// Bits per pixel of a file.
pub fn bits_per_pixel<A: Amount>(bytes: u64, pixels: u64) -> (r: A)
    requires
        bytes <= i64::MAX,
        pixels <= i64::MAX,
    ensures
        r == A::ratio_spec(bytes as i64, 1).times_spec(A::ratio_spec(8, 1)).over_spec(
            A::ratio_spec(pixels as i64, 1),
        ),
{
    A::ratio(bytes as i64, 1).times(A::ratio(8, 1)).over(A::ratio(pixels as i64, 1))
}

/// A text without the `c` that it ends with.
pub open spec fn without_trailing(text: Seq<char>, c: char) -> Seq<char>
    decreases text.len(),
{
    if text.len() > 0 && text.last() == c {
        without_trailing(text.drop_last(), c)
    } else {
        text
    }
}

fn drop_trailing<'a>(text: &'a str, c: char) -> (r: &'a str)
    ensures
        r@ == without_trailing(text@, c),
{
    let mut n: usize = text.unicode_len();
    assert(text@.take(n as int) =~= text@);
    while n > 0 && text.get_char(n - 1) == c
        invariant
            n <= text@.len(),
            without_trailing(text@, c) == without_trailing(text@.take(n as int), c),
        decreases n,
    {
        assert(text@.take(n as int).drop_last() =~= text@.take(n - 1));
        n -= 1;
    }
    assert(text@.take(n as int) =~= text@.subrange(0, n as int));
    text.substring_char(0, n)
}

/// How a distance is written on a chart: whole ones without a fraction, others with
/// at most two decimals. `whole` is the distance if it is whole; `decimals` is it
/// with two decimals.
pub fn dist_note(whole: Option<u32>, decimals: &str) -> (r: String)
    ensures
        r@ == (match whole {
            Some(d) => "-d "@ + decimal(d as int),
            None => without_trailing(without_trailing("-d "@ + decimals@, '0'), '.'),
        }),
{
    match whole {
        Some(d) => "-d ".to_owned().concat(decimal_text(d as u64).as_str()),
        None => {
            let full: String = "-d ".to_owned().concat(decimals);
            drop_trailing(drop_trailing(full.as_str(), '0'), '.').to_owned()
        },
    }
}

/// An extension of the files that are measured.
pub open spec fn is_image_extension(ext: Seq<char>) -> bool {
    same_but_case(ext, "png"@) || same_but_case(ext, "jpg"@) || same_but_case(ext, "jpeg"@)
}

/// Whether files with an extension are measured.
pub fn image_extension(ext: &str) -> (r: bool)
    ensures
        r == is_image_extension(ext@),
{
    equals_ignoring_case(ext, "png") || equals_ignoring_case(ext, "jpg") || equals_ignoring_case(
        ext,
        "jpeg",
    )
}

} // verus!
