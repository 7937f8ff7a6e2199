//! Text: trimming, splitting, whole numbers, and quoting for a shell.

use vstd::prelude::*;
use vstd::string::*;

verus! {

/// A character that separates words.
pub open spec fn is_space(c: char) -> bool {
    ||| '\u{9}' <= c <= '\u{D}'
    ||| c == ' '
    ||| c == '\u{85}'
    ||| c == '\u{A0}'
    ||| c == '\u{1680}'
    ||| '\u{2000}' <= c <= '\u{200A}'
    ||| c == '\u{2028}'
    ||| c == '\u{2029}'
    ||| c == '\u{202F}'
    ||| c == '\u{205F}'
    ||| c == '\u{3000}'
}

/// Whether a character separates words.
pub fn space(c: char) -> (r: bool)
    ensures
        r == is_space(c),
{
    ('\u{9}' <= c && c <= '\u{D}') || c == ' ' || c == '\u{85}' || c == '\u{A0}' || c == '\u{1680}'
        || ('\u{2000}' <= c && c <= '\u{200A}') || c == '\u{2028}' || c == '\u{2029}' || c
        == '\u{202F}' || c == '\u{205F}' || c == '\u{3000}'
}

/// A text without the separators that it begins with.
pub open spec fn without_leading_space(text: Seq<char>) -> Seq<char>
    decreases text.len(),
{
    if text.len() > 0 && is_space(text[0]) {
        without_leading_space(text.skip(1))
    } else {
        text
    }
}

/// A text without the separators that it ends with.
pub open spec fn without_trailing_space(text: Seq<char>) -> Seq<char>
    decreases text.len(),
{
    if text.len() > 0 && is_space(text.last()) {
        without_trailing_space(text.drop_last())
    } else {
        text
    }
}

/// A text without the separators around it.
pub open spec fn trimmed(text: Seq<char>) -> Seq<char> {
    without_trailing_space(without_leading_space(text))
}

/// Removes the separators around a text.
pub fn trim<'a>(text: &'a str) -> (r: &'a str)
    ensures
        r@ == trimmed(text@),
{
    let n: usize = text.unicode_len();
    let mut from: usize = 0;
    assert(text@.skip(0) =~= text@);
    while from < n && space(text.get_char(from))
        invariant
            from <= n,
            n == text@.len(),
            without_leading_space(text@) == without_leading_space(text@.skip(from as int)),
        decreases n - from,
    {
        assert(text@.skip(from as int).skip(1) =~= text@.skip(from as int + 1));
        from += 1;
    }
    let ghost rest = text@.skip(from as int);
    let mut to: usize = n;
    assert(text@.subrange(from as int, n as int) =~= rest);
    while from < to && space(text.get_char(to - 1))
        invariant
            from <= to <= n,
            n == text@.len(),
            without_trailing_space(rest) == without_trailing_space(
                text@.subrange(from as int, to as int),
            ),
        decreases to,
    {
        let ghost now = text@.subrange(from as int, to as int);
        assert(now.last() == text@[to - 1]);
        assert(now.drop_last() =~= text@.subrange(from as int, to - 1));
        to -= 1;
    }
    assert(from < to ==> text@.subrange(from as int, to as int).last() == text@[to - 1]);
    text.substring_char(from, to)
}

/// A text cut at every `sep`.
pub open spec fn cut_at(text: Seq<char>, sep: char) -> Seq<Seq<char>>
    decreases text.len(),
{
    if text.len() == 0 {
        seq![Seq::empty()]
    } else {
        let before = cut_at(text.drop_last(), sep);
        if text.last() == sep {
            before.push(Seq::empty())
        } else {
            before.update(before.len() - 1, before.last().push(text.last()))
        }
    }
}

/// Texts of a list of strings.
pub open spec fn texts(list: Seq<String>) -> Seq<Seq<char>> {
    Seq::new(list.len(), |i: int| list[i]@)
}

/// Cuts a text at every `sep`.
pub fn split(text: &str, sep: char) -> (r: Vec<String>)
    ensures
        texts(r@) == cut_at(text@, sep),
{
    let n: usize = text.unicode_len();
    let mut out: Vec<String> = Vec::new();
    let mut start: usize = 0;
    let mut i: usize = 0;
    assert(text@.take(0) =~= Seq::empty());
    assert(cut_at(Seq::empty(), sep) =~= texts(out@).push(text@.subrange(0, 0)));
    while i < n
        invariant
            start <= i <= n,
            n == text@.len(),
            cut_at(text@.take(i as int), sep) == texts(out@).push(
                text@.subrange(start as int, i as int),
            ),
        decreases n - i,
    {
        let ghost was = texts(out@);
        let ghost piece = text@.subrange(start as int, i as int);
        let c: char = text.get_char(i);
        proof {
            assert(text@.take(i as int + 1).drop_last() =~= text@.take(i as int));
            assert(text@.take(i as int + 1).last() == c);
        }
        if c == sep {
            out.push(text.substring_char(start, i).to_owned());
            start = i + 1;
            proof {
                assert(texts(out@) =~= was.push(piece));
                assert(text@.subrange(start as int, i as int + 1) =~= Seq::empty());
            }
        } else {
            proof {
                let all = was.push(piece);
                assert(all.last() == piece);
                assert(text@.subrange(start as int, i as int + 1) =~= piece.push(c));
                assert(all.update(all.len() - 1, piece.push(c)) =~= was.push(piece.push(c)));
            }
        }
        i += 1;
    }
    let ghost was = texts(out@);
    assert(text@.take(n as int) =~= text@);
    out.push(text.substring_char(start, n).to_owned());
    assert(texts(out@) =~= was.push(text@.subrange(start as int, n as int)));
    out
}

/// A decimal digit.
pub open spec fn is_digit(c: char) -> bool {
    '0' <= c <= '9'
}

/// The number that decimal digits stand for.
pub open spec fn digits_value(digits: Seq<char>) -> int
    decreases digits.len(),
{
    if digits.len() == 0 {
        0
    } else {
        digits_value(digits.drop_last()) * 10 + (digits.last() as int - '0' as int)
    }
}

/// The digits of a number: all of it, but for one plus sign.
pub open spec fn unsigned_digits(text: Seq<char>) -> Seq<char> {
    if text.len() > 0 && text[0] == '+' {
        text.skip(1)
    } else {
        text
    }
}

/// The whole number up to `max` that a text stands for.
pub open spec fn number_of(text: Seq<char>, max: int) -> Option<int> {
    let digits = unsigned_digits(text);
    if digits.len() > 0 && (forall|i: int|
        0 <= i < digits.len() ==> is_digit(#[trigger] digits[i])) && digits_value(digits) <= max {
        Some(digits_value(digits))
    } else {
        None
    }
}

proof fn lemma_more_digits_are_no_less(digits: Seq<char>, n: int)
    requires
        0 <= n <= digits.len(),
        forall|i: int| 0 <= i < digits.len() ==> is_digit(#[trigger] digits[i]),
    ensures
        0 <= digits_value(digits.take(n)) <= digits_value(digits),
    decreases digits.len(),
{
    if n == digits.len() {
        assert(digits.take(n) =~= digits);
        if n > 0 {
            lemma_more_digits_are_no_less(digits.drop_last(), n - 1);
            assert(is_digit(digits[n - 1]));
            assert(digits.drop_last().take(n - 1) =~= digits.drop_last());
        }
    } else {
        lemma_more_digits_are_no_less(digits.drop_last(), n);
        assert(digits.drop_last().take(n) =~= digits.take(n));
        assert(is_digit(digits[digits.len() - 1]));
    }
}

/// Reads a whole number up to `max`.
pub fn parse_whole(text: &str, max: u64) -> (r: Option<u64>)
    ensures
        match r {
            Some(v) => number_of(text@, max as int) == Some(v as int),
            None => number_of(text@, max as int) is None,
        },
{
    let n: usize = text.unicode_len();
    let ghost digits = unsigned_digits(text@);
    let from: usize = if n > 0 && text.get_char(0) == '+' {
        1
    } else {
        0
    };
    assert(digits =~= text@.subrange(from as int, n as int));
    if from == n {
        return None;
    }
    let mut value: u64 = 0;
    let mut over: bool = false;
    let mut i: usize = from;
    assert(digits.take(0) =~= Seq::empty());
    while i < n
        invariant
            from <= i <= n,
            n == text@.len(),
            digits == text@.subrange(from as int, n as int),
            digits == unsigned_digits(text@),
            from < n,
            forall|k: int| 0 <= k < i - from ==> is_digit(#[trigger] digits[k]),
            !over ==> value == digits_value(digits.take(i - from)),
            !over ==> value <= max,
            over ==> digits_value(digits.take(i - from)) > max,
        decreases n - i,
    {
        let c: char = text.get_char(i);
        assert(digits[i - from] == c);
        if c < '0' || c > '9' {
            assert(!is_digit(digits[i - from]));
            return None;
        }
        let d: u32 = c as u32 - 48;
        proof {
            assert(digits.take(i - from + 1).drop_last() =~= digits.take(i - from));
            assert(digits.take(i - from + 1).last() == c);
            assert('0' as int == 48);
        }
        if !over {
            let wide: u128 = value as u128 * 10 + d as u128;
            if wide > max as u128 {
                over = true;
            } else {
                value = wide as u64;
            }
        }
        i += 1;
    }
    assert(digits.take(n - from) =~= digits);
    proof {
        lemma_more_digits_are_no_less(digits, n - from);
    }
    if over {
        None
    } else {
        Some(value)
    }
}

/// The numbers that the leading `n` pieces stand for once they are trimmed, if all
/// do.
pub open spec fn numbers_of(pieces: Seq<Seq<char>>, n: int) -> Option<Seq<u32>>
    decreases n,
{
    if n <= 0 {
        Some(Seq::empty())
    } else {
        match numbers_of(pieces, n - 1) {
            None => None,
            Some(list) => match number_of(trimmed(pieces[n - 1]), u32::MAX as int) {
                None => None,
                Some(v) => Some(list.push(v as u32)),
            },
        }
    }
}

/// The numbers of a text, separated by commas, if it holds nothing else.
pub open spec fn number_list(text: Seq<char>) -> Option<Seq<u32>> {
    let pieces = cut_at(text, ',');
    numbers_of(pieces, pieces.len() as int)
}

proof fn lemma_none_stays_none(pieces: Seq<Seq<char>>, n: int, m: int)
    requires
        n <= m,
        numbers_of(pieces, n) is None,
    ensures
        numbers_of(pieces, m) is None,
    decreases m - n,
{
    if n < m {
        lemma_none_stays_none(pieces, n, m - 1);
        assert(m > 0);
    }
}

/// Reads whole numbers separated by commas.
pub fn parse_u32_list(text: &str) -> (r: Option<Vec<u32>>)
    ensures
        match r {
            Some(list) => number_list(text@) == Some(list@),
            None => number_list(text@) is None,
        },
{
    let pieces: Vec<String> = split(text, ',');
    let ghost cut = cut_at(text@, ',');
    assert(texts(pieces@).len() == pieces@.len());
    let mut out: Vec<u32> = Vec::new();
    let mut i: usize = 0;
    while i < pieces.len()
        invariant
            i <= pieces@.len(),
            cut == cut_at(text@, ','),
            texts(pieces@) == cut,
            cut.len() == pieces@.len(),
            numbers_of(cut, i as int) == Some(out@),
        decreases pieces@.len() - i,
    {
        assert(texts(pieces@)[i as int] == pieces@[i as int]@);
        match parse_whole(trim(pieces[i].as_str()), u32::MAX as u64) {
            Some(v) => {
                out.push(v as u32);
            },
            None => {
                proof {
                    assert(numbers_of(cut, i as int + 1) is None);
                    lemma_none_stays_none(cut, i as int + 1, cut.len() as int);
                }
                return None;
            },
        }
        i += 1;
    }
    Some(out)
}

/// A text cut at every comma, with every piece trimmed.
pub open spec fn trimmed_pieces(text: Seq<char>) -> Seq<Seq<char>> {
    let pieces = cut_at(text, ',');
    Seq::new(pieces.len(), |i: int| trimmed(pieces[i]))
}

/// Cuts a text at every comma and trims the pieces.
pub fn trim_pieces(text: &str) -> (r: Vec<String>)
    ensures
        texts(r@) == trimmed_pieces(text@),
{
    let pieces: Vec<String> = split(text, ',');
    let ghost cut = cut_at(text@, ',');
    assert(texts(pieces@).len() == pieces@.len());
    let mut out: Vec<String> = Vec::new();
    let mut i: usize = 0;
    while i < pieces.len()
        invariant
            i <= pieces@.len(),
            texts(pieces@) == cut,
            cut.len() == pieces@.len(),
            out@.len() == i,
            forall|k: int| 0 <= k < i ==> (#[trigger] out@[k])@ == trimmed(cut[k]),
        decreases pieces@.len() - i,
    {
        assert(texts(pieces@)[i as int] == pieces@[i as int]@);
        out.push(trim(pieces[i].as_str()).to_owned());
        i += 1;
    }
    assert(texts(out@) =~= trimmed_pieces(text@));
    out
}

/// The character of a digit.
pub open spec fn digit_char(d: int) -> char {
    (48 + d) as char
}

/// A whole number in decimal digits.
pub open spec fn decimal(n: int) -> Seq<char>
    decreases n,
{
    if n < 10 {
        seq![digit_char(n)]
    } else {
        decimal(n / 10).push(digit_char(n % 10))
    }
}

fn digit_text(d: u64) -> (r: String)
    requires
        d < 10,
    ensures
        r@ == seq![digit_char(d as int)],
{
    proof {
        reveal_strlit("0");
        reveal_strlit("1");
        reveal_strlit("2");
        reveal_strlit("3");
        reveal_strlit("4");
        reveal_strlit("5");
        reveal_strlit("6");
        reveal_strlit("7");
        reveal_strlit("8");
        reveal_strlit("9");
    }
    let s: &str = match d {
        0 => "0",
        1 => "1",
        2 => "2",
        3 => "3",
        4 => "4",
        5 => "5",
        6 => "6",
        7 => "7",
        8 => "8",
        _ => "9",
    };
    assert(s@ =~= seq![digit_char(d as int)]);
    s.to_owned()
}

/// Writes a whole number in decimal digits.
pub fn decimal_text(n: u64) -> (r: String)
    ensures
        r@ == decimal(n as int),
    decreases n,
{
    let last: String = digit_text(n % 10);
    if n < 10 {
        last
    } else {
        let head: String = decimal_text(n / 10);
        let out: String = head.concat(last.as_str());
        assert(out@ =~= decimal(n as int));
        out
    }
}

/// Digits written out stand for the number that they were written for.
pub proof fn law_decimal_reads_back(n: int)
    requires
        0 <= n,
    ensures
        digits_value(decimal(n)) == n,
        decimal(n).len() > 0,
        forall|i: int| 0 <= i < decimal(n).len() ==> is_digit(#[trigger] decimal(n)[i]),
    decreases n,
{
    let d = n % 10;
    assert(digit_char(d) as int == 48 + d);
    assert('0' as int == 48 && '9' as int == 57);
    if n < 10 {
        assert(decimal(n).drop_last() =~= Seq::empty());
        assert(digits_value(decimal(n).drop_last()) == 0);
    } else {
        law_decimal_reads_back(n / 10);
        assert(decimal(n).drop_last() =~= decimal(n / 10));
    }
}

/// A quote inside single quotes: the quotes are closed, an escaped one follows, and
/// they are opened again.
pub open spec fn escaped(text: Seq<char>) -> Seq<char>
    decreases text.len(),
{
    if text.len() == 0 {
        Seq::empty()
    } else {
        escaped(text.drop_last()) + (if text.last() == '\'' {
            seq!['\'', '\\', '\'', '\'']
        } else {
            seq![text.last()]
        })
    }
}

/// A text in single quotes.
pub open spec fn quoted(text: Seq<char>) -> Seq<char> {
    seq!['\''] + escaped(text) + seq!['\'']
}

/// Puts a text in single quotes for a shell.
pub fn shell_quote(text: &str) -> (r: String)
    ensures
        r@ == quoted(text@),
{
    proof {
        reveal_strlit("'");
        reveal_strlit("'\\''");
    }
    let n: usize = text.unicode_len();
    let mut out: String = "'".to_owned();
    assert(out@ =~= seq!['\''] + escaped(text@.take(0)));
    let mut i: usize = 0;
    while i < n
        invariant
            i <= n,
            n == text@.len(),
            "'\\''"@ == seq!['\'', '\\', '\'', '\''],
            out@ == seq!['\''] + escaped(text@.take(i as int)),
        decreases n - i,
    {
        let ghost was = out@;
        let c: char = text.get_char(i);
        proof {
            assert(text@.take(i as int + 1).drop_last() =~= text@.take(i as int));
            assert(text@.take(i as int + 1).last() == c);
        }
        if c == '\'' {
            out = out.concat("'\\''");
            assert(out@ =~= seq!['\''] + escaped(text@.take(i as int + 1)));
        } else {
            out = out.concat(text.substring_char(i, i + 1));
            assert(text@.subrange(i as int, i as int + 1) =~= seq![c]);
            assert(out@ =~= seq!['\''] + escaped(text@.take(i as int + 1)));
        }
        i += 1;
    }
    assert(text@.take(n as int) =~= text@);
    out.concat("'")
}

/// How a shell reads the next character of a word.
pub enum ReadingMode {
    Bare,
    InQuotes,
    AfterBackslash,
}

/// A word as a shell reads it: what it says so far, and how the next character is
/// read.
pub open spec fn shell_read(line: Seq<char>) -> (Seq<char>, ReadingMode)
    decreases line.len(),
{
    if line.len() == 0 {
        (Seq::empty(), ReadingMode::Bare)
    } else {
        let (word, mode) = shell_read(line.drop_last());
        let c = line.last();
        match mode {
            ReadingMode::InQuotes => if c == '\'' {
                (word, ReadingMode::Bare)
            } else {
                (word.push(c), ReadingMode::InQuotes)
            },
            ReadingMode::AfterBackslash => (word.push(c), ReadingMode::Bare),
            ReadingMode::Bare => if c == '\'' {
                (word, ReadingMode::InQuotes)
            } else if c == '\\' {
                (word, ReadingMode::AfterBackslash)
            } else {
                (word.push(c), ReadingMode::Bare)
            },
        }
    }
}

proof fn lemma_escaped_reads_in_quotes(text: Seq<char>)
    ensures
        shell_read(seq!['\''] + escaped(text)) == (text, ReadingMode::InQuotes),
    decreases text.len(),
{
    let open = seq!['\''];
    if text.len() == 0 {
        assert(open + escaped(text) =~= open);
        assert(open.drop_last() =~= Seq::empty());
        reveal_with_fuel(shell_read, 2);
        assert(text =~= Seq::empty());
    } else {
        let before = open + escaped(text.drop_last());
        lemma_escaped_reads_in_quotes(text.drop_last());
        assert(text.drop_last().push(text.last()) =~= text);
        if text.last() == '\'' {
            let a = before.push('\'');
            let b = a.push('\\');
            let c = b.push('\'');
            let d = c.push('\'');
            assert(open + escaped(text) =~= d);
            assert(a.drop_last() =~= before);
            assert(b.drop_last() =~= a);
            assert(c.drop_last() =~= b);
            assert(d.drop_last() =~= c);
            assert(shell_read(a) == (text.drop_last(), ReadingMode::Bare));
            assert(shell_read(b) == (text.drop_last(), ReadingMode::AfterBackslash));
            assert(shell_read(c) == (text, ReadingMode::Bare));
        } else {
            let a = before.push(text.last());
            assert(open + escaped(text) =~= a);
            assert(a.drop_last() =~= before);
        }
    }
}

/// A shell reads a quoted text as one word that says the text itself, whatever it
/// holds.
pub proof fn law_quoting_is_undone_by_the_shell(text: Seq<char>)
    ensures
        shell_read(quoted(text)) == (text, ReadingMode::Bare),
{
    lemma_escaped_reads_in_quotes(text);
    let before = seq!['\''] + escaped(text);
    assert(quoted(text) =~= before.push('\''));
    assert(before.push('\'').drop_last() =~= before);
}

/// A character in lower case, as far as it is an ASCII letter.
pub open spec fn lower(c: char) -> char {
    if 'A' <= c <= 'Z' {
        (c as u32 + 32) as char
    } else {
        c
    }
}

/// Two texts say the same but for the case of ASCII letters.
pub open spec fn same_but_case(a: Seq<char>, b: Seq<char>) -> bool {
    a.len() == b.len() && forall|i: int|
        0 <= i < a.len() ==> lower(#[trigger] a[i]) == lower(b[i])
}

fn lower_code(c: char) -> (r: u32)
    ensures
        r == lower(c) as u32,
{
    if 'A' <= c && c <= 'Z' {
        c as u32 + 32
    } else {
        c as u32
    }
}

/// Compares two texts without regard to the case of ASCII letters.
pub fn equals_ignoring_case(a: &str, b: &str) -> (r: bool)
    ensures
        r == same_but_case(a@, b@),
{
    let n: usize = a.unicode_len();
    if n != b.unicode_len() {
        return false;
    }
    let mut i: usize = 0;
    while i < n
        invariant
            i <= n,
            n == a@.len(),
            n == b@.len(),
            forall|k: int| 0 <= k < i ==> lower(#[trigger] a@[k]) == lower(b@[k]),
        decreases n - i,
    {
        let x: u32 = lower_code(a.get_char(i));
        let y: u32 = lower_code(b.get_char(i));
        if x != y {
            assert(lower(a@[i as int]) != lower(b@[i as int]));
            return false;
        }
        assert(lower(a@[i as int]) as u32 == lower(b@[i as int]) as u32);
        i += 1;
    }
    true
}

/// Compares two texts.
pub fn same_text(a: &str, b: &str) -> (r: bool)
    ensures
        r == (a@ == b@),
{
    a.to_owned() == b.to_owned()
}

} // verus!
