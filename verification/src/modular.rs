//! Prediction of a sample from its neighbours, and the tokens of what is left.

use vstd::prelude::*;

verus! {

/// A symbol with the context that it is coded in.
#[derive(Clone, Copy, Debug, PartialEq, Eq, Structural)]
pub struct Token {
    pub context: u32,
    pub value: u32,
}

/// A signed number as an unsigned one: 0, -1, 1, -2, 2 and so on.
pub open spec fn zigzag(r: int) -> int {
    if r >= 0 {
        2 * r
    } else {
        -2 * r - 1
    }
}

/// The signed number that an unsigned one stands for.
pub open spec fn unzigzag(v: int) -> int {
    if v % 2 == 0 {
        v / 2
    } else {
        -(v / 2) - 1
    }
}

/// `n` held to the range between `a` and `b`.
pub open spec fn between(n: int, a: int, b: int) -> int {
    let lo = if a < b {
        a
    } else {
        b
    };
    let hi = if a < b {
        b
    } else {
        a
    };
    if n < lo {
        lo
    } else if n > hi {
        hi
    } else {
        n
    }
}

/// The prediction of a sample: its west plus its north less its northwest
/// neighbour, held between west and north.
pub open spec fn gradient_prediction(w: int, n: int, nw: int) -> int {
    between(w + n - nw, w, n)
}

/// The token of a sample: what the prediction leaves, in one of two contexts.
pub open spec fn alpha_token_spec(v: int, w: int, n: int, nw: int) -> Token {
    Token {
        context: if w + n - nw > 0 {
            0
        } else {
            1
        },
        value: zigzag(v - gradient_prediction(w, n, nw)) as u32,
    }
}

/// Packing loses nothing.
pub proof fn law_zigzag_is_undone(r: int)
    ensures
        zigzag(r) >= 0,
        unzigzag(zigzag(r)) == r,
{
}

/// A sample is what its prediction and its token give back.
pub proof fn law_token_gives_back_the_sample(v: int, w: int, n: int, nw: int)
    requires
        0 <= v <= u16::MAX,
        0 <= w <= u16::MAX,
        0 <= n <= u16::MAX,
        0 <= nw <= u16::MAX,
    ensures
        gradient_prediction(w, n, nw) + unzigzag(alpha_token_spec(v, w, n, nw).value as int) == v,
{
    law_zigzag_is_undone(v - gradient_prediction(w, n, nw));
}

fn token_of(v: u16, w: u16, n: u16, nw: u16) -> (r: Token)
    ensures
        r == alpha_token_spec(v as int, w as int, n as int, nw as int),
{
    let (v, w, n, nw): (i32, i32, i32, i32) = (v as i32, w as i32, n as i32, nw as i32);
    let grad: i32 = w + n - nw;
    let (lo, hi): (i32, i32) = if w < n {
        (w, n)
    } else {
        (n, w)
    };
    let pred: i32 = if grad < lo {
        lo
    } else if grad > hi {
        hi
    } else {
        grad
    };
    let residual: i32 = v - pred;
    let value: u32 = if residual >= 0 {
        (2 * residual) as u32
    } else {
        2 * ((-residual) as u32) - 1
    };
    let context: u32 = if grad > 0 {
        0
    } else {
        1
    };
    Token { context, value }
}

/// The token of an 8-bit sample.
pub fn alpha_token_u8(v: u8, w: u8, n: u8, nw: u8) -> (r: Token)
    ensures
        r == alpha_token_spec(v as int, w as int, n as int, nw as int),
{
    token_of(v as u16, w as u16, n as u16, nw as u16)
}

/// The token of a 16-bit sample.
pub fn alpha_token_u16(v: u16, w: u16, n: u16, nw: u16) -> (r: Token)
    ensures
        r == alpha_token_spec(v as int, w as int, n as int, nw as int),
{
    token_of(v, w, n, nw)
}

/// The samples of a row as integers.
pub open spec fn bytes_as_ints(row: Seq<u8>) -> Seq<int> {
    row.map_values(|v: u8| v as int)
}

/// The samples of a row as integers.
pub open spec fn words_as_ints(row: Seq<u16>) -> Seq<int> {
    row.map_values(|v: u16| v as int)
}

/// The tokens of a row, the first of which is left as it was. `north` is the row
/// above; there is none where it is empty.
pub open spec fn row_tokens(row: Seq<int>, north: Seq<int>, before: Seq<Token>) -> Seq<Token> {
    Seq::new(
        row.len(),
        |i: int|
            if i == 0 {
                before[0]
            } else if north.len() == 0 {
                alpha_token_spec(row[i], row[i - 1], 0, 0)
            } else {
                alpha_token_spec(row[i], row[i - 1], north[i], north[i - 1])
            },
    )
}

/// Tokens of all samples of the first row but the first one.
pub fn tokenize_alpha_u8_first_row(row: &[u8], out: &mut Vec<Token>)
    requires
        row@.len() > 0,
        old(out)@.len() == row@.len(),
    ensures
        final(out)@ == row_tokens(bytes_as_ints(row@), Seq::empty(), old(out)@),
{
    let ghost want = row_tokens(bytes_as_ints(row@), Seq::empty(), out@);
    let mut i: usize = 1;
    while i < row.len()
        invariant
            1 <= i <= row@.len(),
            out@.len() == row@.len(),
            want == row_tokens(bytes_as_ints(row@), Seq::empty(), old(out)@),
            forall|k: int| 0 <= k < i ==> #[trigger] out@[k] == want[k],
        decreases row@.len() - i,
    {
        out[i] = alpha_token_u8(row[i], row[i - 1], 0, 0);
        i += 1;
    }
    assert(out@ =~= want);
}

/// Tokens of all samples of a row but the first one, given the row above.
pub fn tokenize_alpha_u8_interior(row: &[u8], north: &[u8], out: &mut Vec<Token>)
    requires
        row@.len() > 0,
        north@.len() == row@.len(),
        old(out)@.len() == row@.len(),
    ensures
        final(out)@ == row_tokens(bytes_as_ints(row@), bytes_as_ints(north@), old(out)@),
{
    let ghost want = row_tokens(bytes_as_ints(row@), bytes_as_ints(north@), out@);
    let mut i: usize = 1;
    while i < row.len()
        invariant
            1 <= i <= row@.len(),
            north@.len() == row@.len(),
            out@.len() == row@.len(),
            want == row_tokens(bytes_as_ints(row@), bytes_as_ints(north@), old(out)@),
            forall|k: int| 0 <= k < i ==> #[trigger] out@[k] == want[k],
        decreases row@.len() - i,
    {
        out[i] = alpha_token_u8(row[i], row[i - 1], north[i], north[i - 1]);
        i += 1;
    }
    assert(out@ =~= want);
}

/// Tokens of all samples of the first row but the first one.
pub fn tokenize_alpha_u16_first_row(row: &[u16], out: &mut Vec<Token>)
    requires
        row@.len() > 0,
        old(out)@.len() == row@.len(),
    ensures
        final(out)@ == row_tokens(words_as_ints(row@), Seq::empty(), old(out)@),
{
    let ghost want = row_tokens(words_as_ints(row@), Seq::empty(), out@);
    let mut i: usize = 1;
    while i < row.len()
        invariant
            1 <= i <= row@.len(),
            out@.len() == row@.len(),
            want == row_tokens(words_as_ints(row@), Seq::empty(), old(out)@),
            forall|k: int| 0 <= k < i ==> #[trigger] out@[k] == want[k],
        decreases row@.len() - i,
    {
        out[i] = alpha_token_u16(row[i], row[i - 1], 0, 0);
        i += 1;
    }
    assert(out@ =~= want);
}

/// Tokens of all samples of a row but the first one, given the row above.
pub fn tokenize_alpha_u16_interior(row: &[u16], north: &[u16], out: &mut Vec<Token>)
    requires
        row@.len() > 0,
        north@.len() == row@.len(),
        old(out)@.len() == row@.len(),
    ensures
        final(out)@ == row_tokens(words_as_ints(row@), words_as_ints(north@), old(out)@),
{
    let ghost want = row_tokens(words_as_ints(row@), words_as_ints(north@), out@);
    let mut i: usize = 1;
    while i < row.len()
        invariant
            1 <= i <= row@.len(),
            north@.len() == row@.len(),
            out@.len() == row@.len(),
            want == row_tokens(words_as_ints(row@), words_as_ints(north@), old(out)@),
            forall|k: int| 0 <= k < i ==> #[trigger] out@[k] == want[k],
        decreases row@.len() - i,
    {
        out[i] = alpha_token_u16(row[i], row[i - 1], north[i], north[i - 1]);
        i += 1;
    }
    assert(out@ =~= want);
}

/// `n` brought into the range of 32-bit numbers by wrapping around.
#[verifier::opaque]
pub open spec fn wrapped(n: int) -> int {
    let m = n % 0x1_0000_0000;
    if m >= 0x8000_0000 {
        m - 0x1_0000_0000
    } else {
        m
    }
}

/// The prediction of a 32-bit sample, in arithmetic that wraps around.
pub open spec fn wrapped_prediction(w: int, n: int, nw: int) -> int {
    let ac = wrapped(w - nw);
    let bc = wrapped(n - nw);
    let ab = wrapped(w - n);
    if (ac < 0) != (bc < 0) {
        wrapped(ac + n)
    } else if (ab < 0) != (bc < 0) {
        n
    } else {
        w
    }
}

/// Away from the ends of the range, the prediction is the gradient held between
/// west and north.
pub proof fn law_wrapped_prediction_is_the_gradient(w: int, n: int, nw: int)
    requires
        -0x4000_0000 <= w < 0x4000_0000,
        -0x4000_0000 <= n < 0x4000_0000,
        -0x4000_0000 <= nw < 0x4000_0000,
    ensures
        wrapped_prediction(w, n, nw) == gradient_prediction(w, n, nw),
{
    reveal(wrapped);
    assert(wrapped(w - nw) == w - nw);
    assert(wrapped(n - nw) == n - nw);
    assert(wrapped(w - n) == w - n);
}

/// What the prediction leaves of a 32-bit sample, packed.
pub open spec fn packed_residual(v: int, w: int, n: int, nw: int) -> int {
    zigzag(wrapped(v - wrapped_prediction(w, n, nw)))
}

/// `a - b`, wrapped around.
pub fn wrapping_diff(a: i32, b: i32) -> (r: i32)
    ensures
        r == wrapped(a - b),
{
    proof {
        reveal(wrapped);
    }
    let d: i64 = a as i64 - b as i64;
    if d > 0x7fff_ffff {
        (d - 0x1_0000_0000) as i32
    } else if d < -0x8000_0000 {
        (d + 0x1_0000_0000) as i32
    } else {
        d as i32
    }
}

fn wrapping_total(a: i32, b: i32) -> (r: i32)
    ensures
        r == wrapped(a + b),
{
    proof {
        reveal(wrapped);
    }
    let d: i64 = a as i64 + b as i64;
    if d > 0x7fff_ffff {
        (d - 0x1_0000_0000) as i32
    } else if d < -0x8000_0000 {
        (d + 0x1_0000_0000) as i32
    } else {
        d as i32
    }
}

fn pack_one(v: i32, w: i32, n: i32, nw: i32) -> (r: u32)
    ensures
        r == packed_residual(v as int, w as int, n as int, nw as int),
{
    let ac: i32 = wrapping_diff(w, nw);
    let bc: i32 = wrapping_diff(n, nw);
    let ab: i32 = wrapping_diff(w, n);
    let pred: i32 = if (ac < 0) != (bc < 0) {
        wrapping_total(ac, n)
    } else if (ab < 0) != (bc < 0) {
        n
    } else {
        w
    };
    let r: i64 = wrapping_diff(v, pred) as i64;
    if r >= 0 {
        (2 * r) as u32
    } else {
        (2 * (-r) - 1) as u32
    }
}

/// Packs what the prediction leaves of the samples `[1, gw)` of a row.
pub fn grad_pack_interior(cur: &[i32], prev: &[i32], out: &mut Vec<u32>, gw: usize)
    requires
        cur@.len() >= gw,
        prev@.len() >= gw,
        old(out)@.len() >= gw,
    ensures
        final(out)@.len() == old(out)@.len(),
        forall|i: int|
            0 <= i < old(out)@.len() ==> #[trigger] final(out)@[i] == (if 1 <= i < gw {
                packed_residual(
                    cur@[i] as int,
                    cur@[i - 1] as int,
                    prev@[i] as int,
                    prev@[i - 1] as int,
                )
            } else {
                old(out)@[i] as int
            }),
{
    let mut gx: usize = 1;
    while gx < gw
        invariant
            1 <= gx,
            gx <= gw || gw == 0 && gx == 1,
            cur@.len() >= gw,
            prev@.len() >= gw,
            out@.len() == old(out)@.len(),
            out@.len() >= gw,
            forall|i: int|
                0 <= i < out@.len() ==> #[trigger] out@[i] == (if 1 <= i < gx {
                    packed_residual(
                        cur@[i] as int,
                        cur@[i - 1] as int,
                        prev@[i] as int,
                        prev@[i - 1] as int,
                    )
                } else {
                    old(out)@[i] as int
                }),
        decreases gw - gx,
    {
        out[gx] = pack_one(cur[gx], cur[gx - 1], prev[gx], prev[gx - 1]);
        gx += 1;
    }
}

/// A packed residual fits in 32 bits, and the sample is what it and the
/// prediction give back.
pub proof fn law_packed_residual_gives_back_the_sample(v: int, w: int, n: int, nw: int)
    requires
        i32::MIN <= v <= i32::MAX,
        i32::MIN <= w <= i32::MAX,
        i32::MIN <= n <= i32::MAX,
    ensures
        0 <= packed_residual(v, w, n, nw) <= u32::MAX,
        wrapped(wrapped_prediction(w, n, nw) + unzigzag(packed_residual(v, w, n, nw))) == v,
{
    reveal(wrapped);
    let pred = wrapped_prediction(w, n, nw);
    law_zigzag_is_undone(wrapped(v - pred));
}

} // verus!
