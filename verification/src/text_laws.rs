//! What reading texts, files and cuts of a region keeps.

use crate::amount::{Amount, Fixed};
use crate::container::{box_size, big_endian, is_codestream, is_reconstruction, walk};
use crate::merge::{chosen, merge_covers, partition_cost_spec, region_totals};
use crate::metrics::first_at;
use crate::numeral::{digits_end, is_numeral};
use crate::series::without_trailing;
use crate::text::{
    cut_at, is_digit, is_space, lower, same_but_case, trimmed, without_leading_space,
    without_trailing_space,
};
use vstd::prelude::*;

verus! {

/// Nothing but spaces.
pub open spec fn all_space(s: Seq<char>) -> bool {
    forall|i: int| 0 <= i < s.len() ==> is_space(#[trigger] s[i])
}

proof fn lemma_leading(text: Seq<char>)
    ensures
        ({
            let r = without_leading_space(text);
            &&& r.len() <= text.len()
            &&& r =~= text.skip(text.len() - r.len())
            &&& all_space(text.take(text.len() - r.len()))
            &&& r.len() > 0 ==> !is_space(r[0])
        }),
    decreases text.len(),
{
    let r = without_leading_space(text);
    if text.len() > 0 && is_space(text[0]) {
        let rest = text.skip(1);
        lemma_leading(rest);
        let k = rest.len() - r.len();
        assert forall|i: int| 0 <= i < text.len() - r.len() implies is_space(
            #[trigger] text.take(text.len() - r.len())[i],
        ) by {
            if i > 0 {
                assert(is_space(rest.take(k)[i - 1]));
            }
        }
        assert(r =~= text.skip(text.len() - r.len()));
    } else {
        assert(text.skip(0) =~= text);
        assert(text.take(0).len() == 0);
    }
}

proof fn lemma_trailing(text: Seq<char>)
    ensures
        ({
            let r = without_trailing_space(text);
            &&& r.len() <= text.len()
            &&& r =~= text.take(r.len() as int)
            &&& all_space(text.skip(r.len() as int))
            &&& r.len() > 0 ==> !is_space(r.last())
        }),
    decreases text.len(),
{
    let r = without_trailing_space(text);
    if text.len() > 0 && is_space(text.last()) {
        let rest = text.drop_last();
        lemma_trailing(rest);
        assert forall|i: int| 0 <= i < text.len() - r.len() implies is_space(
            #[trigger] text.skip(r.len() as int)[i],
        ) by {
            if i < rest.len() - r.len() {
                assert(is_space(rest.skip(r.len() as int)[i]));
            }
        }
        assert(r =~= text.take(r.len() as int));
    } else {
        assert(text.take(text.len() as int) =~= text);
    }
}

/// Trimming takes spaces off both ends and nothing else: what is left begins and ends with
/// something else, and what came off is all space.
pub proof fn law_trimming_takes_off_spaces(text: Seq<char>)
    ensures
        exists|a: int, b: int|
            0 <= a <= b <= text.len() && trimmed(text) == #[trigger] text.subrange(a, b) && all_space(
                text.take(a),
            ) && all_space(text.skip(b)),
        trimmed(text).len() > 0 ==> !is_space(trimmed(text)[0]) && !is_space(trimmed(text).last()),
{
    lemma_leading(text);
    let inner = without_leading_space(text);
    lemma_trailing(inner);
    let r = trimmed(text);
    let a = text.len() - inner.len();
    let b = a + r.len();
    assert(r =~= text.subrange(a, b));
    assert forall|i: int| 0 <= i < text.len() - b implies is_space(#[trigger] text.skip(b)[i]) by {
        assert(is_space(inner.skip(r.len() as int)[i]));
    }
    assert(all_space(text.skip(b)));
    assert(0 <= a <= b <= text.len() && r == text.subrange(a, b));
}

/// Pieces put together again with a separator between them.
pub open spec fn rejoined(pieces: Seq<Seq<char>>, sep: char) -> Seq<char>
    decreases pieces.len(),
{
    if pieces.len() == 0 {
        Seq::empty()
    } else if pieces.len() == 1 {
        pieces[0]
    } else {
        rejoined(pieces.drop_last(), sep).push(sep) + pieces.last()
    }
}

/// Cutting a text loses nothing: the pieces put together again are the text, and no piece
/// holds a separator.
pub proof fn law_cutting_is_undone(text: Seq<char>, sep: char)
    ensures
        rejoined(cut_at(text, sep), sep) == text,
        cut_at(text, sep).len() >= 1,
        forall|i: int|
            0 <= i < cut_at(text, sep).len() ==> !(#[trigger] cut_at(text, sep)[i]).contains(sep),
    decreases text.len(),
{
    let pieces = cut_at(text, sep);
    if text.len() == 0 {
        assert(rejoined(pieces, sep) =~= text);
    } else {
        let head = text.drop_last();
        law_cutting_is_undone(head, sep);
        let before = cut_at(head, sep);
        assert(text =~= head.push(text.last()));
        if text.last() == sep {
            assert(pieces.drop_last() =~= before);
            assert(rejoined(pieces, sep) =~= text);
        } else {
            let n = before.len() as int;
            let last = before.last().push(text.last());
            assert(pieces.drop_last() =~= before.drop_last());
            assert(pieces.last() == last);
            if n > 1 {
                let front = rejoined(before.drop_last(), sep).push(sep);
                assert(head == front + before.last());
                assert(rejoined(pieces, sep) == front + last);
                assert(front + last =~= (front + before.last()).push(text.last()));
            } else {
                assert(head == before[0]);
                assert(pieces[0] == last);
            }
            assert(rejoined(pieces, sep) =~= text);
            assert forall|i: int| 0 <= i < n implies !(#[trigger] pieces[i]).contains(sep) by {
                if i == n - 1 {
                    assert(!before[n - 1].contains(sep));
                    assert forall|k: int| 0 <= k < last.len() implies last[k] != sep by {
                        if k < before.last().len() {
                            assert(before.last()[k] == last[k]);
                        }
                    }
                } else {
                    assert(pieces[i] == before[i]);
                }
            }
        }
    }
}

/// Texts that are the same but for case are so both ways, and along a chain; case is all
/// that may differ.
pub proof fn law_case_is_an_equivalence(a: Seq<char>, b: Seq<char>, c: Seq<char>)
    ensures
        same_but_case(a, a),
        same_but_case(a, b) ==> same_but_case(b, a),
        same_but_case(a, b) && same_but_case(b, c) ==> same_but_case(a, c),
        same_but_case(a, b) ==> a.len() == b.len() && forall|i: int|
            0 <= i < a.len() && !('A' <= #[trigger] a[i] <= 'Z') && !('a' <= a[i] <= 'z') ==> a[i]
                == b[i],
{
    if same_but_case(a, b) {
        assert forall|i: int|
            0 <= i < a.len() && !('A' <= #[trigger] a[i] <= 'Z') && !('a' <= a[i] <= 'z') implies a[i]
            == b[i] by {
            assert(lower(a[i]) == lower(b[i]));
        }
        assert forall|i: int| 0 <= i < b.len() implies lower(#[trigger] b[i]) == lower(a[i]) by {
            assert(lower(a[i]) == lower(b[i]));
        }
        if same_but_case(b, c) {
            assert forall|i: int| 0 <= i < a.len() implies lower(#[trigger] a[i]) == lower(
                c[i],
            ) by {
                assert(lower(b[i]) == lower(c[i]));
            }
        }
    }
}

/// A distance's trailing marks are taken off and nothing else: what is left does not end in
/// one, and only such marks came off.
pub proof fn law_trailing_marks_come_off(text: Seq<char>, c: char)
    ensures
        ({
            let r = without_trailing(text, c);
            &&& r.len() <= text.len()
            &&& r == text.take(r.len() as int)
            &&& forall|i: int| r.len() <= i < text.len() ==> #[trigger] text[i] == c
            &&& r.len() > 0 ==> r.last() != c
        }),
    decreases text.len(),
{
    if text.len() > 0 && text.last() == c {
        law_trailing_marks_come_off(text.drop_last(), c);
        let r = without_trailing(text, c);
        assert(r =~= text.take(r.len() as int));
        assert forall|i: int| r.len() <= i < text.len() implies #[trigger] text[i] == c by {
            if i < text.len() - 1 {
                assert(text.drop_last()[i] == c);
            }
        }
    } else {
        assert(text.take(text.len() as int) =~= text);
    }
}

/// A search finds the first place of a character: none before it holds the character, and
/// where nothing is found none does.
pub proof fn law_searches_find_the_first(text: Seq<char>, c: char, i: int)
    requires
        0 <= i <= text.len(),
    ensures
        match first_at(text, c, i) {
            Some(k) => i <= k < text.len() && text[k] == c && forall|j: int|
                i <= j < k ==> #[trigger] text[j] != c,
            None => forall|j: int| i <= j < text.len() ==> #[trigger] text[j] != c,
        },
    decreases text.len() - i,
{
    if i < text.len() && text[i] != c {
        law_searches_find_the_first(text, c, i + 1);
    }
}

/// A run of digits goes as far as there are digits.
pub proof fn law_digits_go_as_far_as_they_can(text: Seq<char>, i: int)
    requires
        0 <= i <= text.len(),
    ensures
        i <= digits_end(text, i) <= text.len(),
        forall|k: int| i <= k < digits_end(text, i) ==> is_digit(#[trigger] text[k]),
        digits_end(text, i) < text.len() ==> !is_digit(text[digits_end(text, i)]),
    decreases text.len() - i,
{
    if i < text.len() && is_digit(text[i]) {
        law_digits_go_as_far_as_they_can(text, i + 1);
    }
}

/// Whatever is all digits reads as a number, with or without a sign.
pub proof fn law_digits_read_as_a_number(digits: Seq<char>, sign: char)
    requires
        digits.len() > 0,
        forall|i: int| 0 <= i < digits.len() ==> is_digit(#[trigger] digits[i]),
        sign == '+' || sign == '-',
    ensures
        is_numeral(digits),
        is_numeral(seq![sign] + digits),
{
    law_digits_go_as_far_as_they_can(digits, 0);
    assert(is_digit(digits[0]));
    if digits_end(digits, 0) < digits.len() {
        assert(is_digit(digits[digits_end(digits, 0)]));
    }
    let signed = seq![sign] + digits;
    law_digits_go_as_far_as_they_can(signed, 1);
    assert(signed[1] == digits[0]);
    if digits_end(signed, 1) < signed.len() {
        assert(signed[digits_end(signed, 1)] == digits[digits_end(signed, 1) - 1]);
    }
}

/// Bytes are read with the largest part first: another byte makes the rest worth two
/// hundred and fifty-six times as much, and a number holds no more than its bytes can.
pub proof fn law_numbers_are_read_largest_part_first(out: Seq<u8>, pos: int)
    ensures
        0 <= big_endian(out, pos, 4) < 0x1_0000_0000,
        big_endian(out, pos, 4) == out[pos] * 0x100_0000 + out[pos + 1] * 0x1_0000 + out[pos + 2]
            * 0x100 + out[pos + 3],
{
    reveal_with_fuel(big_endian, 5);
}

/// `p` is where a box begins on the way from `pos`.
pub open spec fn box_begins(out: Seq<u8>, pos: int, p: int) -> bool
    decreases out.len() - pos,
{
    if pos < 0 || pos >= out.len() {
        false
    } else {
        p == pos || match box_size(out, pos) {
            Ok(size) => size >= 8 && box_begins(out, pos + size, p),
            Err(fault) => false,
        }
    }
}

/// Walking over the boxes sees every one of them: the reconstruction is found where some
/// box holds it, and so is the codestream.
pub proof fn law_walks_see_every_box(out: Seq<u8>, pos: int)
    requires
        0 <= pos,
    ensures
        walk(out, pos) matches Ok((reconstruction, codestream)) ==> {
            &&& reconstruction <==> exists|p: int| #[trigger]
                box_begins(out, pos, p) && is_reconstruction(out, p)
            &&& codestream <==> exists|p: int| #[trigger]
                box_begins(out, pos, p) && is_codestream(out, p)
        },
    decreases out.len() - pos,
{
    if pos < out.len() {
        match box_size(out, pos) {
            Err(fault) => {},
            Ok(size) => {
                if size >= 8 {
                    law_walks_see_every_box(out, pos + size);
                    assert(box_begins(out, pos, pos));
                    if let Ok((r, c)) = walk(out, pos + size) {
                        if r {
                            let p = choose|p: int| #[trigger]
                                box_begins(out, pos + size, p) && is_reconstruction(out, p);
                            assert(box_begins(out, pos, p));
                        }
                        if c {
                            let p = choose|p: int| #[trigger]
                                box_begins(out, pos + size, p) && is_codestream(out, p);
                            assert(box_begins(out, pos, p));
                        }
                        assert forall|p: int| #[trigger] box_begins(out, pos, p) implies p == pos
                            || box_begins(out, pos + size, p) by {}
                    }
                }
            },
        }
    }
}

/// No merge of a half covers the child at `(x, y)`.
pub open spec fn left_alone(mask: u8, x: int, y: int) -> bool {
    forall|k: int| 1 <= k < 5 && chosen(mask, k) ==> !#[trigger] merge_covers(k, x, y)
}

/// An amount where it counts, and nothing where it does not.
pub open spec fn counted(take: bool, v: Fixed) -> int {
    if take {
        v.raw as int
    } else {
        0
    }
}

/// A cost that is not out of the ordinary.
pub open spec fn fair(v: Fixed) -> bool {
    0 <= v.raw <= 0x400_0000_0000_0000
}

/// A partition costs the merges it chooses and the children that none of them covers.
pub proof fn law_partitions_cost_what_they_hold(
    children: [[Fixed; 2]; 2],
    merges: [Fixed; 5],
    mask: u8,
)
    requires
        !chosen(mask, 0),
        fair(merges@[1]),
        fair(merges@[2]),
        fair(merges@[3]),
        fair(merges@[4]),
        fair(children@[0]@[0]),
        fair(children@[0]@[1]),
        fair(children@[1]@[0]),
        fair(children@[1]@[1]),
    ensures
        partition_cost_spec(children, merges, mask).raw == counted(chosen(mask, 1), merges@[1])
            + counted(chosen(mask, 2), merges@[2]) + counted(chosen(mask, 3), merges@[3]) + counted(
            chosen(mask, 4),
            merges@[4],
        ) + counted(left_alone(mask, 0, 0), children@[0]@[0]) + counted(
            left_alone(mask, 1, 0),
            children@[0]@[1],
        ) + counted(left_alone(mask, 0, 1), children@[1]@[0]) + counted(
            left_alone(mask, 1, 1),
            children@[1]@[1],
        ),
{
    assert(left_alone(mask, 0, 0) == (!chosen(mask, 1) && !chosen(mask, 3))) by {
        assert(merge_covers(1, 0, 0) && merge_covers(3, 0, 0));
    }
    assert(left_alone(mask, 1, 0) == (!chosen(mask, 2) && !chosen(mask, 3))) by {
        assert(merge_covers(2, 1, 0) && merge_covers(3, 1, 0));
    }
    assert(left_alone(mask, 0, 1) == (!chosen(mask, 1) && !chosen(mask, 4))) by {
        assert(merge_covers(1, 0, 1) && merge_covers(4, 0, 1));
    }
    assert(left_alone(mask, 1, 1) == (!chosen(mask, 2) && !chosen(mask, 4))) by {
        assert(merge_covers(2, 1, 1) && merge_covers(4, 1, 1));
    }
}

/// What a merge of a region replaces is what the children under it cost.
pub proof fn law_merges_replace_the_children_under_them(c: [[Fixed; 2]; 2], k: int)
    requires
        0 <= k < 5,
        fair(c@[0]@[0]),
        fair(c@[0]@[1]),
        fair(c@[1]@[0]),
        fair(c@[1]@[1]),
    ensures
        region_totals(c)[k].raw == counted(merge_covers(k, 0, 0), c@[0]@[0]) + counted(
            merge_covers(k, 1, 0),
            c@[0]@[1],
        ) + counted(merge_covers(k, 0, 1), c@[1]@[0]) + counted(
            merge_covers(k, 1, 1),
            c@[1]@[1],
        ),
{
}

} // verus!
