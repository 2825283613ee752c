//! Byte-level text primitives shared by the writer and the parsers:
//! decimal rendering and reading with exact round-trip lemmas, and
//! deterministic scanning over byte strings.

use vstd::prelude::*;

verus! {

/// ASCII codes the encodings are built from.
pub const B_QUOTE: u8 = 0x22;

pub const B_COMMA: u8 = 0x2c;

pub const B_MINUS: u8 = 0x2d;

pub const B_ZERO: u8 = 0x30;

pub const B_NINE: u8 = 0x39;

/// A decimal digit byte.
pub open spec fn is_digit(b: u8) -> bool {
    0x30 <= b <= 0x39
}

/// Minimal decimal rendering of a natural number, most significant first.
pub open spec fn dec_str(n: nat) -> Seq<u8>
    decreases n,
{
    if n < 10 {
        seq![(0x30 + n) as u8]
    } else {
        dec_str(n / 10).push((0x30 + n % 10) as u8)
    }
}

/// Value of a sequence of digit bytes, most significant first.
pub open spec fn val_digits(s: Seq<u8>) -> int
    decreases s.len(),
{
    if s.len() == 0 {
        0
    } else {
        val_digits(s.drop_last()) * 10 + (s.last() - 0x30)
    }
}

/// Decimal rendering of an integer: a minus sign for negative values only.
pub open spec fn int_str(v: int) -> Seq<u8> {
    if v < 0 {
        seq![B_MINUS] + dec_str((-v) as nat)
    } else {
        dec_str(v as nat)
    }
}

/// The rendering consists of digits, begins with a non-zero digit unless it
/// is the single digit zero, and reads back as the rendered value.
pub proof fn lemma_dec_str(n: nat)
    ensures
        dec_str(n).len() >= 1,
        forall|i: int| 0 <= i < dec_str(n).len() ==> is_digit(#[trigger] dec_str(n)[i]),
        n > 0 ==> dec_str(n)[0] != B_ZERO,
        n == 0 ==> dec_str(n) =~= seq![B_ZERO],
        val_digits(dec_str(n)) == n,
    decreases n,
{
    if n < 10 {
        assert(dec_str(n) =~= seq![(0x30 + n) as u8]);
        assert(dec_str(n).drop_last() =~= Seq::<u8>::empty());
        assert(val_digits(dec_str(n)) == val_digits(dec_str(n).drop_last()) * 10 + (dec_str(
            n,
        ).last() - 0x30));
    } else {
        lemma_dec_str(n / 10);
        vstd::arithmetic::div_mod::lemma_fundamental_div_mod(n as int, 10);
        let w = dec_str(n / 10);
        assert(dec_str(n) == w.push((0x30 + n % 10) as u8));
        assert(dec_str(n).drop_last() =~= w);
        assert(dec_str(n)[0] == w[0]);
        assert(n / 10 > 0);
        assert(val_digits(dec_str(n)) == (n / 10) * 10 + n % 10);
    }
}

/// A number needs at most `w` digits exactly when it is below the `w`-th
/// power of ten.
pub proof fn lemma_dec_str_width(n: nat, w: nat)
    requires
        w >= 1,
    ensures
        n < pow10(w) <==> dec_str(n).len() <= w,
    decreases n,
{
    reveal_with_fuel(pow10, 3);
    if n < 10 {
        lemma_pow10_mono(1, w);
        assert(pow10(1) == 10);
    } else if w == 1 {
        lemma_dec_str(n / 10);
        assert(pow10(1) == 10);
        assert(dec_str(n).len() == dec_str(n / 10).len() + 1);
    } else {
        lemma_dec_str_width(n / 10, (w - 1) as nat);
        vstd::arithmetic::div_mod::lemma_fundamental_div_mod(n as int, 10);
        let p = pow10((w - 1) as nat) as int;
        assert(pow10(w) == 10 * p);
        assert(dec_str(n).len() == dec_str(n / 10).len() + 1);
        assert(n == 10 * (n as int / 10) + n as int % 10);
        assert(0 <= n as int % 10 < 10);
        assert(n as int / 10 < p ==> n < 10 * p);
        assert(n < 10 * p ==> n as int / 10 < p);
        assert(n / 10 == n as int / 10);
    }
}

/// Nine decimal digits cover exactly the values below one billion.
pub proof fn lemma_dec_str_len(n: nat)
    ensures
        n < 1_000_000_000 <==> dec_str(n).len() <= 9,
{
    lemma_dec_str_width(n, 9);
    reveal_with_fuel(pow10, 11);
    assert(pow10(9) == 1_000_000_000);
}

/// Powers of ten.
pub open spec fn pow10(w: nat) -> nat
    decreases w,
{
    if w == 0 {
        1
    } else {
        10 * pow10((w - 1) as nat)
    }
}

/// Powers of ten grow with the exponent.
pub proof fn lemma_pow10_mono(a: nat, b: nat)
    requires
        a <= b,
    ensures
        pow10(a) <= pow10(b),
    decreases b,
{
    if a < b {
        lemma_pow10_mono(a, (b - 1) as nat);
    }
}

/// A digit string of bounded length has a bounded value.
pub proof fn lemma_val_digits_bound(s: Seq<u8>)
    requires
        forall|i: int| 0 <= i < s.len() ==> is_digit(#[trigger] s[i]),
    ensures
        0 <= val_digits(s) < pow10(s.len()),
    decreases s.len(),
{
    if s.len() > 0 {
        assert(forall|i: int|
            0 <= i < s.drop_last().len() ==> is_digit(#[trigger] s.drop_last()[i]));
        lemma_val_digits_bound(s.drop_last());
    }
}

/// Position of the first occurrence of `b` at or after `i`, or the length.
pub open spec fn first_at(s: Seq<u8>, i: int, b: u8) -> int
    decreases s.len() - i,
{
    if i < 0 || i >= s.len() {
        s.len() as int
    } else if s[i] == b {
        i
    } else {
        first_at(s, i + 1, b)
    }
}

/// The first occurrence is the known one when everything before it differs.
pub proof fn lemma_first_at(s: Seq<u8>, i: int, j: int, b: u8)
    requires
        0 <= i <= j <= s.len(),
        forall|k: int| i <= k < j ==> s[k] != b,
        j < s.len() ==> s[j] == b,
        j == s.len() ==> forall|k: int| i <= k < s.len() ==> s[k] != b,
    ensures
        first_at(s, i, b) == j,
    decreases j - i,
{
    if i < j {
        lemma_first_at(s, i + 1, j, b);
    }
}

/// A JSON-insignificant whitespace byte: space, tab, carriage return or
/// line feed.
pub open spec fn is_ws(b: u8) -> bool {
    b == 0x20 || b == 0x09 || b == 0x0d || b == 0x0a
}

/// End of the run of whitespace bytes starting at `i`.
pub open spec fn ws_end(s: Seq<u8>, i: int) -> int
    decreases s.len() - i,
{
    if i < 0 || i >= s.len() {
        if i < 0 {
            0
        } else {
            s.len() as int
        }
    } else if !is_ws(s[i]) {
        i
    } else {
        ws_end(s, i + 1)
    }
}

/// The whitespace run lies within the byte string.
pub proof fn lemma_ws_end_bounds(s: Seq<u8>, i: int)
    requires
        0 <= i <= s.len(),
    ensures
        i <= ws_end(s, i) <= s.len(),
        forall|k: int| i <= k < ws_end(s, i) ==> is_ws(#[trigger] s[k]),
        ws_end(s, i) < s.len() ==> !is_ws(s[ws_end(s, i)]),
    decreases s.len() - i,
{
    if i < s.len() && is_ws(s[i]) {
        lemma_ws_end_bounds(s, i + 1);
    }
}

/// Exact reader of `ws_end`.
pub fn skip_ws(s: &[u8], i: usize) -> (r: usize)
    requires
        i <= s@.len(),
    ensures
        r == ws_end(s@, i as int),
        i <= r <= s@.len(),
{
    proof {
        lemma_ws_end_bounds(s@, i as int);
    }
    let ghost e = ws_end(s@, i as int);
    let mut j: usize = i;
    while j < s.len() && (s[j] == 0x20 || s[j] == 0x09 || s[j] == 0x0d || s[j] == 0x0a)
        invariant
            i <= j <= s@.len(),
            e == ws_end(s@, i as int),
            j <= e,
            forall|k: int| i <= k < e ==> is_ws(#[trigger] s@[k]),
            e < s@.len() ==> !is_ws(s@[e]),
        decreases s.len() - j,
    {
        proof {
            if j == e {
                assert(!is_ws(s@[j as int]));
            }
        }
        j += 1;
    }
    proof {
        if j < e {
            assert(is_ws(s@[j as int]));
        }
    }
    j
}

/// End of the run of digit bytes starting at `i`.
pub open spec fn digit_end(s: Seq<u8>, i: int) -> int
    decreases s.len() - i,
{
    if i < 0 || i >= s.len() {
        if i < 0 {
            0
        } else {
            s.len() as int
        }
    } else if !is_digit(s[i]) {
        i
    } else {
        digit_end(s, i + 1)
    }
}

/// The digit run ends exactly where the digits end.
pub proof fn lemma_digit_end(s: Seq<u8>, i: int, j: int)
    requires
        0 <= i <= j <= s.len(),
        forall|k: int| i <= k < j ==> is_digit(#[trigger] s[k]),
        j < s.len() ==> !is_digit(s[j]),
    ensures
        digit_end(s, i) == j,
    decreases j - i,
{
    if i < j {
        lemma_digit_end(s, i + 1, j);
    }
}

/// The digit run lies within the byte string.
pub proof fn lemma_digit_end_bounds(s: Seq<u8>, i: int)
    requires
        0 <= i <= s.len(),
    ensures
        i <= digit_end(s, i) <= s.len(),
        forall|k: int| i <= k < digit_end(s, i) ==> is_digit(#[trigger] s[k]),
        digit_end(s, i) < s.len() ==> !is_digit(s[digit_end(s, i)]),
    decreases s.len() - i,
{
    if i < s.len() && is_digit(s[i]) {
        lemma_digit_end_bounds(s, i + 1);
    }
}

/// Append the minimal decimal rendering of `n`.
pub fn push_decimal(out: &mut Vec<u8>, n: u64)
    ensures
        final(out)@ =~= old(out)@ + dec_str(n as nat),
    decreases n,
{
    if n < 10 {
        out.push(0x30 + n as u8);
    } else {
        push_decimal(out, n / 10);
        out.push(0x30 + (n % 10) as u8);
    }
}

/// Append the decimal rendering of a signed value.
pub fn push_int(out: &mut Vec<u8>, v: i64)
    requires
        v > i64::MIN,
    ensures
        final(out)@ =~= old(out)@ + int_str(v as int),
{
    if v < 0 {
        out.push(B_MINUS);
        push_decimal(out, (-v) as u64);
    } else {
        push_decimal(out, v as u64);
    }
}

/// Read the canonical decimal number starting at `i`: the maximal digit run,
/// refused when it is empty, longer than nine digits, or padded with a
/// leading zero.
pub open spec fn number_at(s: Seq<u8>, i: int) -> Option<(u64, int)> {
    let j = digit_end(s, i);
    if j == i || j - i > 9 || (j - i > 1 && s[i] == B_ZERO) {
        None
    } else {
        Some((val_digits(s.subrange(i, j)) as u64, j))
    }
}

/// Read the canonical signed decimal starting at `i`: an optional minus sign
/// that must not precede a zero.
pub open spec fn int_at(s: Seq<u8>, i: int) -> Option<(i64, int)> {
    if 0 <= i < s.len() && s[i] == B_MINUS {
        match number_at(s, i + 1) {
            Some((n, j)) => if n == 0 {
                None
            } else {
                Some((-(n as int) as i64, j))
            },
            None => None,
        }
    } else {
        match number_at(s, i) {
            Some((n, j)) => Some((n as i64, j)),
            None => None,
        }
    }
}

/// Exact reader of `number_at`.
pub fn read_number(s: &[u8], i: usize) -> (r: Option<(u64, usize)>)
    requires
        i <= s@.len(),
    ensures
        match r {
            Some((v, j)) => number_at(s@, i as int) == Some((v, j as int)) && i < j <= s@.len()
                && v < 1_000_000_000,
            None => number_at(s@, i as int) is None,
        },
{
    proof {
        lemma_digit_end_bounds(s@, i as int);
        reveal_with_fuel(pow10, 11);
        assert(pow10(9) == 1_000_000_000);
    }
    let ghost jj = digit_end(s@, i as int);
    let mut j: usize = i;
    let mut v: u64 = 0;
    while j < s.len() && s[j] >= B_ZERO && s[j] <= B_NINE && j - i < 10
        invariant
            i <= j <= s@.len(),
            i <= jj <= s@.len(),
            jj == digit_end(s@, i as int),
            forall|k: int| i <= k < jj ==> is_digit(#[trigger] s@[k]),
            jj < s@.len() ==> !is_digit(s@[jj]),
            j <= jj,
            j - i <= 10,
            v == val_digits(s@.subrange(i as int, j as int)),
            v < pow10((j - i) as nat),
            pow10(9) == 1_000_000_000,
        decreases s.len() - j,
    {
        proof {
            assert(is_digit(s@[j as int]));
            if j == jj {
                assert(!is_digit(s@[j as int]));
            }
            assert(j < jj);
            lemma_pow10_mono((j - i) as nat, 9);
            assert(s@.subrange(i as int, j + 1).drop_last() =~= s@.subrange(i as int, j as int));
            assert(s@.subrange(i as int, j + 1).last() == s@[j as int]);
            assert(pow10((j + 1 - i) as nat) == 10 * pow10((j - i) as nat));
        }
        v = v * 10 + (s[j] - B_ZERO) as u64;
        j += 1;
    }
    proof {
        if j < s@.len() && is_digit(s@[j as int]) {
            assert(j != jj);
            assert(j < jj);
            assert(j - i == 10);
        } else {
            if j < jj {
                assert(is_digit(s@[j as int]));
                assert(j == s@.len() || !is_digit(s@[j as int]));
            }
            assert(j == jj);
        }
    }
    if j == i {
        proof {
            assert(jj == i);
        }
        return None;
    }
    if j.checked_sub(i).unwrap() > 9 || (j < s.len() && s[j] >= B_ZERO && s[j] <= B_NINE) {
        proof {
            assert(jj - (i as int) > 9);
        }
        return None;
    }
    if j - i > 1 && s[i] == B_ZERO {
        return None;
    }
    proof {
        lemma_pow10_mono((j - i) as nat, 9);
    }
    Some((v, j))
}

/// Exact reader of `int_at`.
pub fn read_int(s: &[u8], i: usize) -> (r: Option<(i64, usize)>)
    requires
        i <= s@.len(),
    ensures
        match r {
            Some((v, j)) => int_at(s@, i as int) == Some((v, j as int)) && i < j <= s@.len()
                && -1_000_000_000 < v < 1_000_000_000,
            None => int_at(s@, i as int) is None,
        },
{
    if i < s.len() && s[i] == B_MINUS {
        match read_number(s, i + 1) {
            Some((n, j)) => {
                if n == 0 {
                    None
                } else {
                    Some((-(n as i64), j))
                }
            },
            None => None,
        }
    } else {
        match read_number(s, i) {
            Some((n, j)) => Some((n as i64, j)),
            None => None,
        }
    }
}

/// Round trip: the canonical reader reads back a rendered number whenever
/// the byte after it is not a digit.
pub proof fn lemma_number_round_trip(s: Seq<u8>, i: int, n: nat)
    requires
        0 <= i,
        i + dec_str(n).len() <= s.len(),
        s.subrange(i, i + dec_str(n).len() as int) == dec_str(n),
        n < 1_000_000_000,
        i + dec_str(n).len() < s.len() ==> !is_digit(s[i + dec_str(n).len()]),
    ensures
        number_at(s, i) == Some((n as u64, i + dec_str(n).len())),
{
    let w = dec_str(n);
    lemma_dec_str(n);
    lemma_dec_str_len(n);
    let j = i + w.len();
    assert forall|k: int| i <= k < j implies is_digit(#[trigger] s[k]) by {
        assert(s[k] == w[k - i]);
    }
    lemma_digit_end(s, i, j);
    assert(s[i] == w[0]);
    assert(s.subrange(i, j) =~= w);
    if n > 0 {
        assert(s[i] != B_ZERO);
    } else {
        assert(j - i == 1);
    }
}

/// Round trip for signed values.
pub proof fn lemma_int_round_trip(s: Seq<u8>, i: int, v: int)
    requires
        0 <= i,
        i + int_str(v).len() <= s.len(),
        s.subrange(i, i + int_str(v).len() as int) == int_str(v),
        -1_000_000_000 < v < 1_000_000_000,
        i + int_str(v).len() < s.len() ==> !is_digit(s[i + int_str(v).len()]),
    ensures
        int_at(s, i) == Some((v as i64, i + int_str(v).len())),
{
    let w = int_str(v);
    if v < 0 {
        let d = dec_str((-v) as nat);
        assert(w == seq![B_MINUS] + d);
        assert(s[i] == w[0]);
        assert(w[0] == B_MINUS);
        assert(s.subrange(i + 1, i + 1 + d.len() as int) =~= d) by {
            assert forall|k: int| 0 <= k < d.len() implies s.subrange(
                i + 1,
                i + 1 + d.len() as int,
            )[k] == d[k] by {
                assert(s[i + 1 + k] == w[1 + k]);
                assert(w[1 + k] == d[k]);
            }
        }
        lemma_number_round_trip(s, i + 1, (-v) as nat);
        lemma_dec_str((-v) as nat);
    } else {
        lemma_number_round_trip(s, i, v as nat);
        lemma_dec_str(v as nat);
        if 0 <= i < s.len() && s[i] == B_MINUS {
            assert(s[i] == dec_str(v as nat)[0]);
            assert(is_digit(dec_str(v as nat)[0]));
        }
    }
}

} // verus!
