//! The `q` quality parameter: grammar and scaled value.
//!
//! A `q` parameter is parsed as a real number under the usual floating-point
//! grammar (optional sign; `inf`, `infinity` or `nan`, case-insensitively; or
//! a decimal mantissa with an optional decimal exponent). The value is
//! clamped to `[0, 1]`, multiplied by 1000 and truncated, which yields an
//! integer in `[0, 1000]`. The arithmetic here is exact: no floating-point
//! rounding enters the result.

use vstd::prelude::*;
use vstd::arithmetic::power::{
    pow, lemma_pow_adds, lemma_pow_positive, lemma_pow_increases, lemma_pow_strictly_increases,
};
use vstd::arithmetic::div_mod::{
    lemma_basic_div, lemma_div_is_ordered, lemma_div_multiples_vanish,
    lemma_div_multiples_vanish_fancy,
};
use crate::bytes::lower_bytes;

verus! {

/// An ASCII decimal digit.
pub open spec fn is_ascii_digit(b: u8) -> bool {
    48 <= b <= 57
}

/// Every byte of the sequence is an ASCII decimal digit.
pub open spec fn all_ascii_digits(s: Seq<u8>) -> bool {
    forall|i: int| 0 <= i < s.len() ==> is_ascii_digit(#[trigger] s[i])
}

/// The number of consecutive ASCII digits of `s` from position `from` on.
pub open spec fn digit_run(s: Seq<u8>, from: int) -> int
    decreases s.len() - from,
{
    if 0 <= from < s.len() && is_ascii_digit(s[from]) {
        1 + digit_run(s, from + 1)
    } else {
        0
    }
}

/// The integer a digit string denotes, most significant digit first.
pub open spec fn digits_val(s: Seq<u8>) -> int
    decreases s.len(),
{
    if s.len() == 0 {
        0
    } else {
        digits_val(s.drop_last()) * 10 + (s.last() - 48)
    }
}

/// `10^n`.
pub open spec fn pow10(n: nat) -> int {
    pow(10, n)
}

/// Caps a value at 1000, the scaled weight of `q = 1`.
pub open spec fn cap_at_1000(x: int) -> int {
    if x > 1000 {
        1000
    } else {
        x
    }
}

/// `floor(m * 10^e)` capped at 1000, for a nonnegative integer `m`.
pub open spec fn scaled_pow(m: int, e: int) -> int {
    if e >= 0 {
        cap_at_1000(m * pow10(e as nat))
    } else {
        cap_at_1000(m / pow10((-e) as nat))
    }
}

/// The keyword `inf`, lower case.
pub open spec fn inf_keyword() -> Seq<u8> {
    seq![105u8, 110u8, 102u8]
}

/// The keyword `infinity`, lower case.
pub open spec fn infinity_keyword() -> Seq<u8> {
    seq![105u8, 110u8, 102u8, 105u8, 110u8, 105u8, 116u8, 121u8]
}

/// The keyword `nan`, lower case.
pub open spec fn nan_keyword() -> Seq<u8> {
    seq![110u8, 97u8, 110u8]
}

/// The unsigned body spells infinity, case-insensitively.
pub open spec fn is_inf_body(s: Seq<u8>) -> bool {
    lower_bytes(s) == inf_keyword() || lower_bytes(s) == infinity_keyword()
}

/// The unsigned body spells `nan`, case-insensitively.
pub open spec fn is_nan_body(s: Seq<u8>) -> bool {
    lower_bytes(s) == nan_keyword()
}

/// The number of digits of the integer part of the mantissa.
pub open spec fn int_part_len(s: Seq<u8>) -> int {
    digit_run(s, 0)
}

/// Whether a decimal point follows the integer part.
pub open spec fn has_dot(s: Seq<u8>) -> bool {
    int_part_len(s) < s.len() && s[int_part_len(s)] == 46
}

/// The position of the first fractional digit.
pub open spec fn frac_start(s: Seq<u8>) -> int {
    int_part_len(s) + 1
}

/// The number of digits of the fractional part of the mantissa.
pub open spec fn frac_part_len(s: Seq<u8>) -> int {
    if has_dot(s) {
        digit_run(s, frac_start(s))
    } else {
        0
    }
}

/// The position just past the mantissa.
pub open spec fn mantissa_end(s: Seq<u8>) -> int {
    if has_dot(s) {
        int_part_len(s) + 1 + frac_part_len(s)
    } else {
        int_part_len(s)
    }
}

/// All mantissa digits, the decimal point dropped.
pub open spec fn mantissa_digits(s: Seq<u8>) -> Seq<u8> {
    s.subrange(0, int_part_len(s)) + if has_dot(s) {
        s.subrange(frac_start(s), frac_start(s) + frac_part_len(s))
    } else {
        Seq::<u8>::empty()
    }
}

/// Whether an exponent marker follows the mantissa.
pub open spec fn has_exp(s: Seq<u8>) -> bool {
    mantissa_end(s) < s.len() && (s[mantissa_end(s)] == 101 || s[mantissa_end(s)] == 69)
}

/// Whether the exponent carries an explicit sign.
pub open spec fn exp_has_sign(s: Seq<u8>) -> bool {
    has_exp(s) && mantissa_end(s) + 1 < s.len() && (s[mantissa_end(s) + 1] == 43 || s[
        mantissa_end(s) + 1] == 45)
}

/// Whether the exponent is negative.
pub open spec fn exp_is_negative(s: Seq<u8>) -> bool {
    has_exp(s) && mantissa_end(s) + 1 < s.len() && s[mantissa_end(s) + 1] == 45
}

/// The position of the first exponent digit.
pub open spec fn exp_digits_start(s: Seq<u8>) -> int {
    mantissa_end(s) + 1 + if exp_has_sign(s) {
        1int
    } else {
        0int
    }
}

/// The number of exponent digits.
pub open spec fn exp_digits_len(s: Seq<u8>) -> int {
    digit_run(s, exp_digits_start(s))
}

/// The signed value of the exponent; zero when none is written.
pub open spec fn exp_val(s: Seq<u8>) -> int {
    if !has_exp(s) {
        0
    } else if exp_is_negative(s) {
        -digits_val(s.subrange(exp_digits_start(s), exp_digits_start(s) + exp_digits_len(s)))
    } else {
        digits_val(s.subrange(exp_digits_start(s), exp_digits_start(s) + exp_digits_len(s)))
    }
}

/// The unsigned body is a well-formed decimal number: at least one mantissa
/// digit; if an exponent marker appears, at least one exponent digit; and
/// nothing else up to the end.
pub open spec fn is_valid_number(s: Seq<u8>) -> bool {
    &&& int_part_len(s) + frac_part_len(s) >= 1
    &&& if has_exp(s) {
        exp_digits_len(s) >= 1 && exp_digits_start(s) + exp_digits_len(s) == s.len()
    } else {
        mantissa_end(s) == s.len()
    }
}

/// The scaled value of a valid nonnegative number body:
/// `floor(mantissa * 10^(exponent - fractional digits) * 1000)` capped at 1000.
pub open spec fn number_scaled(s: Seq<u8>) -> int {
    scaled_pow(digits_val(mantissa_digits(s)), exp_val(s) - frac_part_len(s) + 3)
}

/// The scaled quality weight a `q` string denotes: the string is read under
/// the floating-point grammar; its value is clamped to `[0, 1]`, multiplied
/// by 1000 and truncated. `None` when the string is not a valid number.
/// A negative value clamps to 0, as does `nan`.
pub open spec fn q_scaled(s: Seq<u8>) -> Option<u16> {
    let signed = s.len() > 0 && (s[0] == 43 || s[0] == 45);
    let neg = s.len() > 0 && s[0] == 45;
    let body = if signed {
        s.skip(1)
    } else {
        s
    };
    if is_inf_body(body) {
        Option::Some(
            if neg {
                0u16
            } else {
                1000u16
            },
        )
    } else if is_nan_body(body) {
        Option::Some(0u16)
    } else if is_valid_number(body) {
        Option::Some(
            if neg {
                0u16
            } else {
                number_scaled(body) as u16
            },
        )
    } else {
        Option::None
    }
}

/// `n` zero digits.
pub open spec fn zero_digits(n: int) -> Seq<u8> {
    Seq::new(n as nat, |i: int| 48u8)
}

/// The first `t` digits of `d` from position `k` on, filled up with zeros
/// on the right where `d` runs out.
pub open spec fn padded_digits(d: Seq<u8>, k: int, t: int) -> Seq<u8> {
    if d.len() - k >= t {
        d.subrange(k, k + t)
    } else {
        d.subrange(k, d.len() as int) + zero_digits(t - (d.len() - k))
    }
}

proof fn lemma_pow10_pos(n: nat)
    ensures
        pow10(n) >= 1,
{
    lemma_pow_positive(10, n);
}

proof fn lemma_pow10_unfold(n: nat)
    requires
        n >= 1,
    ensures
        pow10(n) == 10 * pow10((n - 1) as nat),
{
    reveal_with_fuel(pow, 2);
}

proof fn lemma_pow10_1000()
    ensures
        pow10(3) == 1000,
{
    reveal_with_fuel(pow, 4);
}

proof fn lemma_digits_val_bounds(s: Seq<u8>)
    requires
        all_ascii_digits(s),
    ensures
        0 <= digits_val(s) < pow10(s.len()),
    decreases s.len(),
{
    if s.len() == 0 {
        reveal_with_fuel(pow, 1);
    } else {
        assert(all_ascii_digits(s.drop_last()));
        lemma_digits_val_bounds(s.drop_last());
        lemma_pow10_unfold(s.len());
    }
}

proof fn lemma_digits_val_first_nonzero(s: Seq<u8>)
    requires
        all_ascii_digits(s),
        s.len() > 0,
        s[0] != 48,
    ensures
        digits_val(s) >= pow10((s.len() - 1) as nat),
    decreases s.len(),
{
    if s.len() == 1 {
        reveal_with_fuel(pow, 1);
        assert(digits_val(s.drop_last()) == 0);
        assert(digits_val(s) == s[0] - 48);
    } else {
        assert(all_ascii_digits(s.drop_last()));
        assert(s.drop_last()[0] == s[0]);
        lemma_digits_val_first_nonzero(s.drop_last());
        lemma_digits_val_bounds(s.drop_last());
        lemma_pow10_unfold((s.len() - 1) as nat);
    }
}

proof fn lemma_digits_val_concat(a: Seq<u8>, b: Seq<u8>)
    ensures
        digits_val(a + b) == digits_val(a) * pow10(b.len()) + digits_val(b),
    decreases b.len(),
{
    if b.len() == 0 {
        assert(a + b =~= a);
        reveal_with_fuel(pow, 1);
    } else {
        lemma_digits_val_concat(a, b.drop_last());
        assert((a + b).drop_last() =~= a + b.drop_last());
        assert((a + b).last() == b.last());
        lemma_pow10_unfold(b.len());
        assert(digits_val(a) * pow10((b.len() - 1) as nat) * 10 == digits_val(a) * pow10(
            b.len(),
        )) by (nonlinear_arith)
            requires
                pow10(b.len()) == 10 * pow10((b.len() - 1) as nat),
        ;
    }
}

proof fn lemma_digits_val_zeros(s: Seq<u8>)
    requires
        forall|i: int| 0 <= i < s.len() ==> s[i] == 48,
    ensures
        digits_val(s) == 0,
    decreases s.len(),
{
    if s.len() > 0 {
        lemma_digits_val_zeros(s.drop_last());
    }
}

proof fn lemma_digits_val_skip_zeros(s: Seq<u8>, k: int)
    requires
        0 <= k <= s.len(),
        forall|j: int| 0 <= j < k ==> s[j] == 48,
    ensures
        digits_val(s) == digits_val(s.skip(k)),
{
    let zs = s.subrange(0, k);
    assert(s =~= zs + s.skip(k));
    lemma_digits_val_zeros(zs);
    lemma_digits_val_concat(zs, s.skip(k));
}

/// The scaled value of a digit string with first nonzero digit at `k`,
/// normalized: with `t = e + |d| - k`, the result is 1000 for `t >= 4`,
/// 0 for `t <= 0`, and otherwise the integer the `t` digits from `k` spell.
proof fn lemma_scaled_norm(d: Seq<u8>, e: int, k: int, t: int)
    requires
        all_ascii_digits(d),
        0 <= k < d.len(),
        forall|j: int| 0 <= j < k ==> d[j] == 48,
        d[k] != 48,
        t == e + d.len() - k,
    ensures
        scaled_pow(digits_val(d), e) == (if t >= 4 {
            1000int
        } else if t <= 0 {
            0int
        } else {
            digits_val(padded_digits(d, k, t))
        }),
        0 <= scaled_pow(digits_val(d), e) <= 1000,
{
    let dd = d.skip(k);
    let n = dd.len() as int;
    let m = digits_val(d);
    lemma_digits_val_skip_zeros(d, k);
    assert(all_ascii_digits(dd));
    assert(dd[0] == d[k]);
    lemma_digits_val_first_nonzero(dd);
    lemma_digits_val_bounds(dd);
    lemma_pow10_1000();
    assert(m == digits_val(dd));
    assert(pow10((n - 1) as nat) <= m < pow10(n as nat));
    assert(t == e + n);
    if t >= 4 {
        if e >= 0 {
            lemma_pow10_pos(e as nat);
            assert(m * pow10(e as nat) >= pow10((n - 1) as nat) * pow10(e as nat)) by (
            nonlinear_arith)
                requires
                    m >= pow10((n - 1) as nat),
                    pow10(e as nat) >= 1,
            ;
            lemma_pow_adds(10, (n - 1) as nat, e as nat);
            assert(pow10((n - 1) as nat) * pow10(e as nat) == pow10((t - 1) as nat));
            if t - 1 > 3 {
                lemma_pow_strictly_increases(10, 3, (t - 1) as nat);
            }
            assert(pow10((t - 1) as nat) >= 1000);
        } else {
            let p = pow10((-e) as nat);
            lemma_pow10_pos((-e) as nat);
            lemma_pow_adds(10, (t - 1) as nat, (-e) as nat);
            assert(pow10((n - 1) as nat) == pow10((t - 1) as nat) * p);
            if t - 1 > 3 {
                lemma_pow_strictly_increases(10, 3, (t - 1) as nat);
            }
            assert(pow10((t - 1) as nat) >= 1000);
            assert(pow10((t - 1) as nat) * p >= 1000 * p) by (nonlinear_arith)
                requires
                    pow10((t - 1) as nat) >= 1000,
                    p >= 1,
            ;
            lemma_div_is_ordered(1000 * p, m, p);
            lemma_div_multiples_vanish(1000, p);
            assert(m / p >= 1000);
        }
    } else if t <= 0 {
        assert(e <= -n);
        let p = pow10((-e) as nat);
        lemma_pow_increases(10, n as nat, (-e) as nat);
        assert(m < p);
        lemma_pow10_pos((-e) as nat);
        lemma_basic_div(m, p);
        assert(m / p == 0);
    } else {
        // 1 <= t <= 3
        if n >= t {
            let pre = dd.subrange(0, t);
            let rest = dd.skip(t);
            assert(dd =~= pre + rest);
            lemma_digits_val_concat(pre, rest);
            assert(all_ascii_digits(pre));
            lemma_digits_val_bounds(pre);
            if t < 3 {
                lemma_pow_strictly_increases(10, t as nat, 3);
            }
            assert(pow10(t as nat) <= 1000);
            assert(padded_digits(d, k, t) =~= pre);
            if n == t {
                assert(e == 0);
                assert(rest.len() == 0);
                reveal_with_fuel(pow, 1);
                assert(m == digits_val(pre));
                assert(m * 1 == m);
            } else {
                assert(e == t - n && e < 0);
                let p = pow10((-e) as nat);
                assert(rest.len() == -e);
                assert(all_ascii_digits(rest));
                lemma_digits_val_bounds(rest);
                lemma_pow10_pos((-e) as nat);
                assert(m == digits_val(pre) * p + digits_val(rest));
                lemma_div_multiples_vanish_fancy(digits_val(pre), digits_val(rest), p);
                assert((p * digits_val(pre) + digits_val(rest)) / p == digits_val(pre));
                assert(p * digits_val(pre) == digits_val(pre) * p) by (nonlinear_arith);
                assert(m / p == digits_val(pre));
            }
        } else {
            // n < t: pad with zeros on the right
            assert(e == t - n && e > 0);
            let zs = zero_digits(e);
            let padded = dd + zs;
            assert(padded_digits(d, k, t) =~= padded);
            lemma_digits_val_concat(dd, zs);
            lemma_digits_val_zeros(zs);
            assert(digits_val(padded) == m * pow10(e as nat));
            lemma_pow_adds(10, n as nat, e as nat);
            lemma_pow10_pos(e as nat);
            assert(m * pow10(e as nat) < pow10(n as nat) * pow10(e as nat)) by (nonlinear_arith)
                requires
                    m < pow10(n as nat),
                    pow10(e as nat) >= 1,
            ;
            if t < 3 {
                lemma_pow_strictly_increases(10, t as nat, 3);
            }
            assert(pow10(n as nat) * pow10(e as nat) == pow10(t as nat) <= 1000);
        }
    }
}

/// A zero mantissa scales to zero whatever the exponent.
proof fn lemma_scaled_zero(e: int)
    ensures
        scaled_pow(0, e) == 0,
{
    if e >= 0 {
        assert(0 * pow10(e as nat) == 0);
    } else {
        lemma_pow10_pos((-e) as nat);
        lemma_basic_div(0, pow10((-e) as nat));
    }
}


/// Positions inside a digit run hold digits, and the run stays in bounds.
proof fn lemma_digit_run_range(s: Seq<u8>, from: int)
    requires
        0 <= from <= s.len(),
    ensures
        from + digit_run(s, from) <= s.len(),
        forall|p: int| from <= p < from + digit_run(s, from) ==> is_ascii_digit(#[trigger] s[p]),
    decreases s.len() - from,
{
    if from < s.len() && is_ascii_digit(s[from]) {
        lemma_digit_run_range(s, from + 1);
    }
}

/// Counts the consecutive ASCII digits of `s` from position `from` on.
fn count_digit_run(s: &[u8], from: usize) -> (n: usize)
    requires
        from <= s@.len(),
    ensures
        n == digit_run(s@, from as int),
        from + n <= s@.len(),
        from + n == s@.len() || !is_ascii_digit(s@[from + n]),
{
    let mut i: usize = from;
    while i < s.len() && 48 <= s[i] && s[i] <= 57
        invariant
            from <= i <= s@.len(),
            digit_run(s@, from as int) == (i - from) + digit_run(s@, i as int),
        decreases s@.len() - i,
    {
        assert(digit_run(s@, i as int) == 1 + digit_run(s@, i + 1));
        i = i + 1;
    }
    assert(digit_run(s@, i as int) == 0);
    i - from
}

/// Whether the unsigned body spells infinity, case-insensitively.
fn body_is_inf(s: &[u8]) -> (r: bool)
    ensures
        r == is_inf_body(s@),
{
    assert(lower_bytes(s@).len() == s@.len());
    if s.len() == 3 {
        let r = crate::bytes::lower_byte(s[0]) == 105 && crate::bytes::lower_byte(s[1]) == 110
            && crate::bytes::lower_byte(s[2]) == 102;
        proof {
            if r {
                assert(lower_bytes(s@) =~= inf_keyword());
            } else {
                assert(lower_bytes(s@) != inf_keyword());
            }
        }
        r
    } else if s.len() == 8 {
        let r = crate::bytes::lower_byte(s[0]) == 105 && crate::bytes::lower_byte(s[1]) == 110
            && crate::bytes::lower_byte(s[2]) == 102 && crate::bytes::lower_byte(s[3]) == 105
            && crate::bytes::lower_byte(s[4]) == 110 && crate::bytes::lower_byte(s[5]) == 105
            && crate::bytes::lower_byte(s[6]) == 116 && crate::bytes::lower_byte(s[7]) == 121;
        proof {
            if r {
                assert(lower_bytes(s@) =~= infinity_keyword());
            } else {
                assert(lower_bytes(s@) != infinity_keyword());
            }
        }
        r
    } else {
        false
    }
}

/// Whether the unsigned body spells `nan`, case-insensitively.
fn body_is_nan(s: &[u8]) -> (r: bool)
    ensures
        r == is_nan_body(s@),
{
    assert(lower_bytes(s@).len() == s@.len());
    if s.len() == 3 {
        let r = crate::bytes::lower_byte(s[0]) == 110 && crate::bytes::lower_byte(s[1]) == 97
            && crate::bytes::lower_byte(s[2]) == 110;
        proof {
            if r {
                assert(lower_bytes(s@) =~= nan_keyword());
            } else {
                assert(lower_bytes(s@) != nan_keyword());
            }
        }
        r
    } else {
        false
    }
}

/// Collects the mantissa digits of a number body into one vector.
fn mantissa_vec(body: &[u8], d1: usize, dot: bool, d2: usize) -> (digs: Vec<u8>)
    requires
        d1 == int_part_len(body@),
        dot == has_dot(body@),
        d2 == frac_part_len(body@),
    ensures
        digs@ == mantissa_digits(body@),
        all_ascii_digits(digs@),
        digs@.len() == d1 + d2,
{
    let ghost bv = body@;
    let blen = body.len();
    proof {
        lemma_digit_run_range(bv, 0);
        if dot {
            lemma_digit_run_range(bv, d1 + 1);
        }
    }
    let mut digs: Vec<u8> = Vec::new();
    let mut i: usize = 0;
    while i < d1
        invariant
            body@ == bv,
            0 <= i <= d1 <= blen == bv.len(),
            d1 == int_part_len(bv),
            digs@ =~= bv.subrange(0, i as int),
        decreases d1 - i,
    {
        let db = body[i];
        digs.push(db);
        proof {
            assert(bv.subrange(0, i + 1) =~= bv.subrange(0, i as int).push(bv[i as int]));
        }
        i = i + 1;
    }
    if dot {
        let fs = d1 + 1;
        let mut j: usize = 0;
        while j < d2
            invariant
                body@ == bv,
                0 <= j <= d2,
                fs == d1 + 1,
                fs + d2 <= blen == bv.len(),
                digs@ =~= bv.subrange(0, d1 as int) + bv.subrange(fs as int, fs + j),
            decreases d2 - j,
        {
            let db = body[fs + j];
            digs.push(db);
            proof {
                assert(bv.subrange(fs as int, fs + j + 1) =~= bv.subrange(fs as int, fs + j).push(
                    bv[fs + j],
                ));
            }
            j = j + 1;
        }
    }
    proof {
        assert(digs@ =~= mantissa_digits(bv));
        assert forall|p: int| 0 <= p < digs@.len() implies is_ascii_digit(#[trigger] digs@[p]) by {
            if p < d1 {
                assert(digs@[p] == bv[p]);
            } else {
                assert(digs@[p] == bv[d1 + 1 + (p - d1)]);
            }
        }
    }
    digs
}

/// Reads the exponent digits at `[ds, ds + d3)` and returns their value,
/// capped high enough that the cap can never change which branch of the
/// scaled value applies.
fn exp_magnitude(body: &[u8], ds: usize, d3: usize) -> (ev: i128)
    requires
        ds + d3 == body@.len(),
        d3 == digit_run(body@, ds as int),
    ensures
        0 <= ev < 10_000_000_000_000_000_000_000i128,
        ev == digits_val(body@.subrange(ds as int, (ds + d3) as int)) || (
        1_000_000_000_000_000_000_000i128 <= ev && ev <= digits_val(
            body@.subrange(ds as int, (ds + d3) as int),
        )),
{
    let ghost bv = body@;
    proof {
        lemma_digit_run_range(bv, ds as int);
    }
    let blen = body.len();
    let cap: i128 = 1_000_000_000_000_000_000_000;
    let mut ev: i128 = 0;
    let mut j: usize = ds;
    while j < blen
        invariant
            body@ == bv,
            blen == bv.len(),
            ds <= j <= ds + d3 == blen,
            forall|p: int| ds <= p < ds + d3 ==> is_ascii_digit(#[trigger] bv[p]),
            cap == 1_000_000_000_000_000_000_000i128,
            0 <= ev < 10 * cap,
            (ev == digits_val(bv.subrange(ds as int, j as int))) || (cap <= ev && cap
                <= digits_val(bv.subrange(ds as int, j as int)) && ev <= digits_val(
                bv.subrange(ds as int, j as int),
            )),
        decreases blen - j,
    {
        let db = body[j];
        proof {
            let pre = bv.subrange(ds as int, j as int);
            let pre1 = bv.subrange(ds as int, j + 1);
            assert(pre1.drop_last() =~= pre);
            assert(pre1.last() == bv[j as int]);
            assert(digits_val(pre1) == digits_val(pre) * 10 + (bv[j as int] - 48));
        }
        if ev < cap {
            ev = ev * 10 + (db - 48) as i128;
        } else {
            proof {
                let pre = bv.subrange(ds as int, j as int);
                let pre1 = bv.subrange(ds as int, j + 1);
                assert(digits_val(pre1) >= digits_val(pre)) by (nonlinear_arith)
                    requires
                        digits_val(pre1) == digits_val(pre) * 10 + (bv[j as int] - 48),
                        digits_val(pre) >= 0,
                        bv[j as int] >= 48,
                ;
            }
        }
        j = j + 1;
    }
    ev
}

/// The integer the `tt` digits of `digs` from position `k` on spell,
/// zero-filled on the right where the digits run out.
fn leading_scaled_digits(digs: &Vec<u8>, k: usize, tt: usize) -> (n: u16)
    requires
        k < digs@.len(),
        1 <= tt <= 3,
        all_ascii_digits(digs@),
    ensures
        n == digits_val(padded_digits(digs@, k as int, tt as int)),
        n <= 999,
{
    let ghost padded = padded_digits(digs@, k as int, tt as int);
    proof {
        assert(padded.len() == tt);
    }
    let dl = digs.len();
    let mut nacc: u16 = 0;
    let mut j: usize = 0;
    while j < tt
        invariant
            0 <= j <= tt <= 3,
            k < dl == digs@.len(),
            all_ascii_digits(digs@),
            padded == padded_digits(digs@, k as int, tt as int),
            padded.len() == tt,
            nacc == digits_val(padded.take(j as int)),
            j == 0 ==> nacc == 0,
            j == 1 ==> nacc <= 9,
            j == 2 ==> nacc <= 99,
            j == 3 ==> nacc <= 999,
        decreases tt - j,
    {
        let db = if j < dl - k {
            digs[k + j]
        } else {
            48
        };
        proof {
            assert(padded[j as int] == db);
            assert(padded.take(j + 1).drop_last() =~= padded.take(j as int));
            assert(padded.take(j + 1).last() == padded[j as int]);
            if j < dl - k {
                assert(is_ascii_digit(digs@[k + j]));
            }
        }
        nacc = nacc * 10 + (db - 48) as u16;
        j = j + 1;
    }
    proof {
        assert(padded.take(tt as int) =~= padded);
    }
    nacc
}

/// Parses a `q` parameter value and returns its scaled weight in `[0, 1000]`,
/// or `None` when the string is not a valid number.
#[verifier::rlimit(100)]
pub fn parse_q(s: &[u8]) -> (r: Option<u16>)
    ensures
        r == q_scaled(s@),
{
    let slen = s.len();
    let signed = slen > 0 && (s[0] == 43 || s[0] == 45);
    let neg = slen > 0 && s[0] == 45;
    let body: &[u8] = if signed {
        vstd::slice::slice_subrange(s, 1, slen)
    } else {
        s
    };
    proof {
        assert(s@.skip(1) =~= s@.subrange(1, s@.len() as int));
    }
    let ghost bv = body@;
    if body_is_inf(body) {
        return if neg {
            Option::Some(0u16)
        } else {
            Option::Some(1000u16)
        };
    }
    if body_is_nan(body) {
        return Option::Some(0u16);
    }
    let blen = body.len();
    let d1 = count_digit_run(body, 0);
    assert(int_part_len(bv) == d1);
    let dot = d1 < blen && body[d1] == 46;
    let d2 = if dot {
        count_digit_run(body, d1 + 1)
    } else {
        0
    };
    assert(frac_part_len(bv) == d2);
    let m_end = if dot {
        d1 + 1 + d2
    } else {
        d1
    };
    assert(mantissa_end(bv) == m_end);
    if d1 == 0 && d2 == 0 {
        return Option::None;
    }
    let cap: i128 = 1_000_000_000_000_000_000_000;
    let mut exp_neg = false;
    let mut ev: i128 = 0;
    let ghost e_mag: int = 0int;
    if m_end == blen {
        assert(!has_exp(bv));
        assert(exp_val(bv) == 0);
    } else if body[m_end] == 101 || body[m_end] == 69 {
        assert(has_exp(bv));
        let sign_here = m_end + 1 < blen && (body[m_end + 1] == 43 || body[m_end + 1] == 45);
        exp_neg = m_end + 1 < blen && body[m_end + 1] == 45;
        assert(sign_here == exp_has_sign(bv));
        assert(exp_neg == exp_is_negative(bv));
        let ds = if sign_here {
            m_end + 2
        } else {
            m_end + 1
        };
        assert(ds == exp_digits_start(bv));
        let d3 = count_digit_run(body, ds);
        assert(d3 == exp_digits_len(bv));
        if d3 == 0 || ds + d3 != blen {
            return Option::None;
        }
        ev = exp_magnitude(body, ds, d3);
        proof {
            e_mag = digits_val(bv.subrange(ds as int, (ds + d3) as int));
            assert(exp_val(bv) == if exp_neg {
                -e_mag
            } else {
                e_mag
            });
        }
    } else {
        assert(!has_exp(bv));
        assert(mantissa_end(bv) != bv.len());
        return Option::None;
    }
    assert(is_valid_number(bv));
    assert(exp_val(bv) == if exp_neg {
        -e_mag
    } else {
        e_mag
    });
    assert(ev == e_mag || (cap <= ev <= e_mag));
    if neg {
        return Option::Some(0u16);
    }
    let digs = mantissa_vec(body, d1, dot, d2);
    let dl = digs.len();
    let mut k: usize = 0;
    while k < dl && digs[k] == 48
        invariant
            0 <= k <= dl == digs@.len(),
            forall|p: int| 0 <= p < k ==> digs@[p] == 48,
        decreases dl - k,
    {
        k = k + 1;
    }
    let ghost e3 = exp_val(bv) - d2 + 3;
    if k == dl {
        proof {
            lemma_digits_val_zeros(digs@);
            lemma_scaled_zero(e3);
        }
        return Option::Some(0u16);
    }
    let evs: i128 = if exp_neg {
        -ev
    } else {
        ev
    };
    let t_exec: i128 = d1 as i128 + evs + 3 - k as i128;
    let ghost t_spec = exp_val(bv) + d1 + 3 - k;
    proof {
        assert(t_spec == e3 + digs@.len() - k);
        if exp_val(bv) != evs as int {
            assert(cap <= ev <= e_mag);
            if exp_neg {
                assert(t_exec <= 0 && t_spec <= 0);
            } else {
                assert(t_exec >= 4 && t_spec >= 4);
            }
        }
        lemma_scaled_norm(digs@, e3, k as int, t_spec);
    }
    if t_exec >= 4 {
        assert(t_spec >= 4);
        Option::Some(1000u16)
    } else if t_exec <= 0 {
        assert(t_spec <= 0);
        Option::Some(0u16)
    } else {
        assert(t_spec == t_exec as int);
        let tt = t_exec as usize;
        let n = leading_scaled_digits(&digs, k, tt);
        proof {
            assert(number_scaled(bv) == n as int);
        }
        Option::Some(n)
    }
}

} // verus!
