//! Scores of a measuring run: asking for them, reading them, and averaging them.

use crate::amount::Amount;
use crate::text::{
    decimal, decimal_text, equals_ignoring_case, is_space, quoted, same_but_case, shell_quote,
    space, texts, trim, trimmed,
};
use vstd::prelude::*;
use vstd::string::*;

verus! {

/// The leading `n` paths of a list, quoted, with a space before each.
pub open spec fn quoted_list(paths: Seq<Seq<char>>, n: int) -> Seq<char>
    decreases n,
{
    if n <= 0 {
        Seq::empty()
    } else {
        quoted_list(paths, n - 1) + " "@ + quoted(paths[n - 1])
    }
}

/// The line that asks for the scores of several images against one reference.
pub open spec fn score_request(
    tests: Seq<Seq<char>>,
    reference: Seq<char>,
    display: Seq<char>,
    device: Option<Seq<char>>,
) -> Seq<char> {
    "--test"@ + quoted_list(tests, tests.len() as int) + " --ref "@ + quoted(reference)
        + " --display "@ + quoted(display) + (match device {
        Some(d) => " --device "@ + quoted(d),
        None => Seq::empty(),
    }) + " --quiet\n"@
}

/// Writes the line that asks for the scores of several images against one
/// reference.
pub fn request_line(
    tests: &Vec<String>,
    reference: &str,
    display: &str,
    device: &Option<String>,
) -> (r: String)
    ensures
        r@ == score_request(texts(tests@), reference@, display@, crate::settings::shown(*device)),
{
    let ghost paths = texts(tests@);
    let mut line: String = "--test".to_owned();
    assert(line@ =~= "--test"@ + quoted_list(paths, 0));
    let mut i: usize = 0;
    while i < tests.len()
        invariant
            i <= tests@.len(),
            paths == texts(tests@),
            line@ == "--test"@ + quoted_list(paths, i as int),
        decreases tests@.len() - i,
    {
        let ghost was = quoted_list(paths, i as int);
        assert(paths[i as int] == tests@[i as int]@);
        line = line.concat(" ").concat(shell_quote(tests[i].as_str()).as_str());
        assert(line@ =~= "--test"@ + (was + " "@ + quoted(paths[i as int])));
        i += 1;
    }
    assert(paths.len() == tests@.len());
    line = line.concat(" --ref ").concat(shell_quote(reference).as_str()).concat(
        " --display ",
    ).concat(shell_quote(display).as_str());
    let ghost head = line@;
    if let Some(d) = device {
        line = line.concat(" --device ").concat(shell_quote(d.as_str()).as_str());
        assert(line@ =~= head + (" --device "@ + quoted(d@)));
    } else {
        assert(line@ =~= head + Seq::empty());
    }
    line.concat(" --quiet\n")
}

/// Where `c` first stands at or behind `i`.
pub open spec fn first_at(text: Seq<char>, c: char, i: int) -> Option<int>
    decreases text.len() - i,
{
    if i >= text.len() {
        None
    } else if text[i] == c {
        Some(i)
    } else {
        first_at(text, c, i + 1)
    }
}

fn find_char(text: &str, c: char) -> (r: Option<usize>)
    ensures
        match r {
            Some(i) => first_at(text@, c, 0) == Some(i as int) && i < text@.len(),
            None => first_at(text@, c, 0) is None,
        },
{
    let n: usize = text.unicode_len();
    let mut i: usize = 0;
    while i < n
        invariant
            i <= n,
            n == text@.len(),
            first_at(text@, c, 0) == first_at(text@, c, i as int),
        decreases n - i,
    {
        if text.get_char(i) == c {
            return Some(i);
        }
        i += 1;
    }
    None
}

/// Where the word that begins at `i` ends.
pub open spec fn word_end(text: Seq<char>, i: int) -> int
    decreases text.len() - i,
{
    if i >= text.len() || is_space(text[i]) {
        i
    } else {
        word_end(text, i + 1)
    }
}

/// The first word of a text, if it has one.
pub open spec fn first_word(text: Seq<char>) -> Option<Seq<char>> {
    let t = trimmed(text);
    if t.len() == 0 {
        None
    } else {
        Some(t.subrange(0, word_end(t, 0)))
    }
}

fn take_first_word(text: &str) -> (r: Option<String>)
    ensures
        crate::settings::shown(r) == first_word(text@),
{
    let t: &str = trim(text);
    let n: usize = t.unicode_len();
    if n == 0 {
        return None;
    }
    let mut i: usize = 0;
    while i < n && !space(t.get_char(i))
        invariant
            i <= n,
            n == t@.len(),
            word_end(t@, 0) == word_end(t@, i as int),
        decreases n - i,
    {
        i += 1;
    }
    Some(t.substring_char(0, i).to_owned())
}

/// The number in a line that the scorer writes: the first word of a bare line, or of
/// what follows `cvvdp=`. Other lines with an equals sign hold none.
pub open spec fn cvvdp_number(line: Seq<char>) -> Option<Seq<char>> {
    match first_at(line, '=', 0) {
        Some(i) => if same_but_case(trimmed(line.subrange(0, i)), "cvvdp"@) {
            first_word(line.subrange(i + 1, line.len() as int))
        } else {
            None
        },
        None => first_word(line),
    }
}

/// Finds the number in a line that the scorer writes.
pub fn parse_cvvdp_line(line: &str) -> (r: Option<String>)
    ensures
        crate::settings::shown(r) == cvvdp_number(line@),
{
    match find_char(line, '=') {
        Some(i) => {
            let n: usize = line.unicode_len();
            if equals_ignoring_case(trim(line.substring_char(0, i)), "cvvdp") {
                take_first_word(line.substring_char(i + 1, n))
            } else {
                None
            }
        },
        None => take_first_word(line),
    }
}

/// A line of the distance tool: whether it holds the norm, and what is to be read as
/// a number.
pub open spec fn distance_line(line: Seq<char>) -> (bool, Seq<char>) {
    let t = trimmed(line);
    let tag = "3-norm:"@;
    if tag.is_prefix_of(t) {
        (true, trimmed(t.skip(tag.len() as int)))
    } else {
        (false, t)
    }
}

/// Tells whether a line of the distance tool holds the norm, and what is to be read
/// as a number.
pub fn read_distance_line(line: &str) -> (r: (bool, String))
    ensures
        (r.0, r.1@) == distance_line(line@),
{
    let t: &str = trim(line);
    let n: usize = t.unicode_len();
    proof {
        reveal_strlit("3-norm:");
    }
    let tag: &str = "3-norm:";
    let k: usize = tag.unicode_len();
    if n >= k {
        let head: &str = t.substring_char(0, k);
        if crate::text::same_text(head, tag) {
            assert(tag@.is_prefix_of(t@)) by {
                assert(tag@ =~= t@.subrange(0, tag@.len() as int));
            }
            assert(t@.skip(k as int) =~= t@.subrange(k as int, n as int));
            return (true, trim(t.substring_char(k, n)).to_owned());
        }
        assert(!tag@.is_prefix_of(t@));
    }
    (false, t.to_owned())
}

/// What was read of a distance tool's answer so far.
#[derive(Clone, Copy)]
pub struct DistanceScores<A> {
    pub norm: Option<A>,
    pub max: Option<A>,
}

/// Scores after one more line: the norm is that of the last line which has one, the
/// largest distance that of the first other line which is a number.
pub open spec fn scores_after<A: Amount>(
    s: DistanceScores<A>,
    tagged: bool,
    value: Option<A>,
) -> DistanceScores<A> {
    if tagged {
        DistanceScores { norm: value, max: s.max }
    } else if s.max is None {
        DistanceScores { norm: s.norm, max: value }
    } else {
        s
    }
}

/// Takes one more line into account; `value` is its number if it is one.
pub fn take_distance_line<A: Amount>(
    s: DistanceScores<A>,
    tagged: bool,
    value: Option<A>,
) -> (r: DistanceScores<A>)
    ensures
        r == scores_after(s, tagged, value),
{
    if tagged {
        DistanceScores { norm: value, max: s.max }
    } else if s.max.is_none() {
        DistanceScores { norm: s.norm, max: value }
    } else {
        s
    }
}

/// The two distances, if both were found.
pub fn distances_found<A: Amount>(s: DistanceScores<A>) -> (r: Option<(A, A)>)
    ensures
        r == (if s.norm is Some && s.max is Some {
            Some((s.norm->0, s.max->0))
        } else {
            None
        }),
{
    match (s.norm, s.max) {
        (Some(n), Some(m)) => Some((n, m)),
        _ => None,
    }
}

/// What was measured on one image.
#[derive(Clone, Copy)]
pub struct Sample<A> {
    /// Bits per pixel.
    pub bpp: A,
    pub ss2: A,
    /// Norm of the butteraugli distances, if it was measured.
    pub ba: Option<A>,
    /// Largest butteraugli distance, if it was measured.
    pub ba_max: Option<A>,
    /// ColorVideoVDP quality, if it was measured.
    pub cvvdp: Option<A>,
}

/// A sum, one after another.
pub open spec fn summed<A: Amount>(xs: Seq<A>, n: int) -> A
    decreases n,
{
    if n <= 0 {
        A::zero_spec()
    } else {
        summed(xs, n - 1).plus_spec(xs[n - 1])
    }
}

/// The arithmetic mean.
pub open spec fn mean_of<A: Amount>(xs: Seq<A>) -> A {
    summed(xs, xs.len() as int).over_spec(A::ratio_spec(xs.len() as i64, 1))
}

/// The arithmetic mean of a list that is not empty.
pub fn arith_mean<A: Amount>(xs: &Vec<A>) -> (r: A)
    requires
        0 < xs@.len() <= i64::MAX,
    ensures
        r == mean_of(xs@),
{
    let mut sum: A = A::zero();
    let mut i: usize = 0;
    while i < xs.len()
        invariant
            i <= xs@.len(),
            sum == summed(xs@, i as int),
        decreases xs@.len() - i,
    {
        sum = sum.plus(xs[i]);
        i += 1;
    }
    sum.over(A::ratio(xs.len() as i64, 1))
}

/// Natural logarithms of a list.
pub open spec fn logs_of<A: Amount>(xs: Seq<A>) -> Seq<A> {
    Seq::new(xs.len(), |i: int| xs[i].ln_spec())
}

/// The geometric mean of a list that is not empty; none if something in it is not
/// positive.
pub fn geo_mean<A: Amount>(xs: &Vec<A>) -> (r: Option<A>)
    requires
        0 < xs@.len() <= i64::MAX,
    ensures
        r is None <==> exists|i: int|
            0 <= i < xs@.len() && (#[trigger] xs@[i]).at_most_spec(A::zero_spec()),
        r matches Some(m) ==> m == mean_of(logs_of(xs@)).exp_spec(),
{
    let zero: A = A::zero();
    let mut logs: Vec<A> = Vec::new();
    let mut i: usize = 0;
    while i < xs.len()
        invariant
            i <= xs@.len(),
            zero == A::zero_spec(),
            logs@.len() == i,
            forall|k: int| 0 <= k < i ==> !(#[trigger] xs@[k]).at_most_spec(zero),
            forall|k: int| 0 <= k < i ==> #[trigger] logs@[k] == xs@[k].ln_spec(),
        decreases xs@.len() - i,
    {
        if xs[i].at_most(zero) {
            return None;
        }
        logs.push(xs[i].ln());
        i += 1;
    }
    assert(logs@ =~= logs_of(xs@));
    Some(arith_mean(&logs).exp())
}

/// Which score is meant.
#[derive(Clone, Copy, Debug, PartialEq, Eq, Structural)]
pub enum Score {
    Rate,
    Ss2,
    Butteraugli,
    ButteraugliMax,
    Cvvdp,
}

/// A score of a sample, if it was measured.
pub open spec fn score_of<A>(s: Sample<A>, which: Score) -> Option<A> {
    match which {
        Score::Rate => Some(s.bpp),
        Score::Ss2 => Some(s.ss2),
        Score::Butteraugli => s.ba,
        Score::ButteraugliMax => s.ba_max,
        Score::Cvvdp => s.cvvdp,
    }
}

/// The scores of the leading `n` samples that were measured.
pub open spec fn scores_of<A>(samples: Seq<Sample<A>>, which: Score, n: int) -> Seq<A>
    decreases n,
{
    if n <= 0 {
        Seq::empty()
    } else {
        let before = scores_of(samples, which, n - 1);
        match score_of(samples[n - 1], which) {
            Some(v) => before.push(v),
            None => before,
        }
    }
}

/// Lists the scores of samples that were measured.
pub fn collect_scores<A: Amount>(samples: &Vec<Sample<A>>, which: Score) -> (r: Vec<A>)
    ensures
        r@ == scores_of(samples@, which, samples@.len() as int),
        r@.len() <= samples@.len(),
{
    let mut out: Vec<A> = Vec::new();
    let mut i: usize = 0;
    while i < samples.len()
        invariant
            i <= samples@.len(),
            out@ == scores_of(samples@, which, i as int),
            out@.len() <= i,
        decreases samples@.len() - i,
    {
        let s: Sample<A> = samples[i];
        let v: Option<A> = match which {
            Score::Rate => Some(s.bpp),
            Score::Ss2 => Some(s.ss2),
            Score::Butteraugli => s.ba,
            Score::ButteraugliMax => s.ba_max,
            Score::Cvvdp => s.cvvdp,
        };
        if let Some(x) = v {
            out.push(x);
        }
        i += 1;
    }
    out
}

/// The mean of a score over samples and how many of them have it; none if none has.
pub open spec fn mean_score<A: Amount>(samples: Seq<Sample<A>>, which: Score) -> Option<(A, int)> {
    let xs = scores_of(samples, which, samples.len() as int);
    if xs.len() == 0 {
        None
    } else {
        Some((mean_of(xs), xs.len() as int))
    }
}

/// Averages a score over samples: the mean, and how many of them have it.
pub fn average<A: Amount>(samples: &Vec<Sample<A>>, which: Score) -> (r: Option<(A, usize)>)
    requires
        samples@.len() <= i64::MAX,
    ensures
        match r {
            Some((m, n)) => mean_score(samples@, which) == Some((m, n as int)),
            None => mean_score(samples@, which) is None,
        },
{
    let xs: Vec<A> = collect_scores(samples, which);
    if xs.len() == 0 {
        None
    } else {
        Some((arith_mean(&xs), xs.len()))
    }
}

/// Every sample has a rate and the score that is always measured, so their means are
/// over all samples.
pub proof fn law_rate_and_first_score_are_over_all_samples<A: Amount>(
    samples: Seq<Sample<A>>,
    which: Score,
    n: int,
)
    requires
        which == Score::Rate || which == Score::Ss2,
        0 <= n <= samples.len(),
    ensures
        scores_of(samples, which, n).len() == n,
    decreases n,
{
    if n > 0 {
        law_rate_and_first_score_are_over_all_samples(samples, which, n - 1);
    }
}

/// A point of a chart.
#[derive(Clone, Copy)]
pub struct ChartPoint<A> {
    pub x: A,
    pub y: A,
}

/// What a chart shows.
#[derive(Clone, Copy)]
pub struct ChartBounds<A> {
    pub xmin: A,
    pub xmax: A,
    pub ymin: A,
    pub ymax: A,
}

/// The box around the leading `n` points; `n` is positive.
pub open spec fn box_of<A: Amount>(points: Seq<ChartPoint<A>>, n: int) -> ChartBounds<A>
    decreases n,
{
    let p = points[n - 1];
    if n <= 1 {
        ChartBounds { xmin: p.x, xmax: p.x, ymin: p.y, ymax: p.y }
    } else {
        let b = box_of(points, n - 1);
        ChartBounds {
            xmin: b.xmin.lesser_spec(p.x),
            xmax: b.xmax.greater_spec(p.x),
            ymin: b.ymin.lesser_spec(p.y),
            ymax: b.ymax.greater_spec(p.y),
        }
    }
}

/// The bounds of a chart: the box around its points with room to every side, the
/// scores held to their range; a unit of rate and the whole range if it is empty.
pub open spec fn bounds_of<A: Amount>(
    points: Seq<ChartPoint<A>>,
    low: A,
    high: A,
) -> ChartBounds<A> {
    if points.len() == 0 {
        ChartBounds { xmin: A::zero_spec(), xmax: A::ratio_spec(1, 1), ymin: low, ymax: high }
    } else {
        let b = box_of(points, points.len() as int);
        let rim = A::ratio_spec(1, 1_000_000);
        let xpad = b.xmax.minus_spec(b.xmin).times_spec(A::ratio_spec(1, 20)).plus_spec(rim);
        let ypad = b.ymax.minus_spec(b.ymin).times_spec(A::ratio_spec(2, 25)).plus_spec(rim);
        ChartBounds {
            xmin: b.xmin.minus_spec(xpad),
            xmax: b.xmax.plus_spec(xpad),
            ymin: b.ymin.minus_spec(ypad).greater_spec(low),
            ymax: b.ymax.plus_spec(ypad).lesser_spec(high),
        }
    }
}

/// Finds the bounds of a chart.
pub fn bounds<A: Amount>(points: &Vec<ChartPoint<A>>, low: A, high: A) -> (r: ChartBounds<A>)
    ensures
        r == bounds_of(points@, low, high),
{
    if points.len() == 0 {
        return ChartBounds { xmin: A::zero(), xmax: A::ratio(1, 1), ymin: low, ymax: high };
    }
    let p: ChartPoint<A> = points[0];
    let mut b: ChartBounds<A> = ChartBounds { xmin: p.x, xmax: p.x, ymin: p.y, ymax: p.y };
    let mut i: usize = 1;
    while i < points.len()
        invariant
            1 <= i <= points@.len(),
            b == box_of(points@, i as int),
        decreases points@.len() - i,
    {
        let p: ChartPoint<A> = points[i];
        b = ChartBounds {
            xmin: b.xmin.lesser(p.x),
            xmax: b.xmax.greater(p.x),
            ymin: b.ymin.lesser(p.y),
            ymax: b.ymax.greater(p.y),
        };
        i += 1;
    }
    let rim: A = A::ratio(1, 1_000_000);
    let xpad: A = b.xmax.minus(b.xmin).times(A::ratio(1, 20)).plus(rim);
    let ypad: A = b.ymax.minus(b.ymin).times(A::ratio(2, 25)).plus(rim);
    ChartBounds {
        xmin: b.xmin.minus(xpad),
        xmax: b.xmax.plus(xpad),
        ymin: b.ymin.minus(ypad).greater(low),
        ymax: b.ymax.plus(ypad).lesser(high),
    }
}

/// The header of a portable pixmap.
pub open spec fn pixmap_header(w: int, h: int) -> Seq<char> {
    "P6\n"@ + decimal(w) + " "@ + decimal(h) + "\n255\n"@
}

/// Writes the header of a portable pixmap.
pub fn ppm_header(w: u32, h: u32) -> (r: String)
    ensures
        r@ == pixmap_header(w as int, h as int),
{
    "P6\n".to_owned().concat(decimal_text(w as u64).as_str()).concat(" ").concat(
        decimal_text(h as u64).as_str(),
    ).concat("\n255\n")
}

} // verus!
