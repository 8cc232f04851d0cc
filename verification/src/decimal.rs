//! Decimal point totals.
//!
//! The points endpoint reports totals either as JSON numbers or as numeric
//! strings. Both are kept exactly as a decimal value `mant * 10^(-scale)`
//! (negated when `neg`), held in canonical form so that equal values have
//! equal representations: no trailing zero in the fractional digits and no
//! negative zero.

use vstd::prelude::*;
use crate::scan::chars_of;

verus! {

/// A decimal value `mant * 10^(-scale)`, negated when `neg`, in canonical form.
#[derive(Clone, Copy, Debug, PartialEq, Eq, Structural)]
pub struct Decimal {
    pub neg: bool,
    pub mant: u64,
    pub scale: usize,
}

impl Decimal {
    /// Canonical form: zero is unsigned with scale zero, and a fractional
    /// part never ends in a zero digit.
    pub open spec fn wf(self) -> bool {
        &&& (self.mant == 0 ==> !self.neg && self.scale == 0)
        &&& (self.mant != 0 && self.scale > 0 ==> self.mant % 10 != 0)
    }

    pub open spec fn spec_zero() -> Decimal {
        Decimal { neg: false, mant: 0, scale: 0 }
    }

    /// The zero value, the documented default for an absent total.
    pub fn zero() -> (r: Decimal)
        ensures
            r == Decimal::spec_zero(),
            r.wf(),
    {
        Decimal { neg: false, mant: 0, scale: 0 }
    }
}

pub open spec fn is_digit(c: char) -> bool {
    '0' <= c && c <= '9'
}

pub open spec fn digit_val(c: char) -> int {
    c as int - '0' as int
}

/// First position in `[i, b)` that does not hold an ASCII digit.
pub open spec fn digits_end(s: Seq<char>, i: int, b: int) -> int
    decreases b - i,
        when i <= b
{
    if i < b && i < s.len() && is_digit(s[i]) {
        digits_end(s, i + 1, b)
    } else {
        i
    }
}

pub proof fn lemma_digits_end_bounds(s: Seq<char>, i: int, b: int)
    requires
        0 <= i <= b <= s.len(),
    ensures
        i <= digits_end(s, i, b) <= b,
        forall|k: int| i <= k < digits_end(s, i, b) ==> is_digit(s[k]),
        digits_end(s, i, b) < b ==> !is_digit(s[digits_end(s, i, b)]),
    decreases b - i,
{
    if i < b && is_digit(s[i]) {
        lemma_digits_end_bounds(s, i + 1, b);
    }
}

/// Value of the digits `s[i..b)` folded onto `acc`, or `None` if it would
/// exceed `u64::MAX`.
pub open spec fn digits_fold(s: Seq<char>, i: int, b: int, acc: u64) -> Option<u64>
    decreases b - i,
        when i <= b
{
    if i >= b {
        Some(acc)
    } else {
        let v = acc * 10 + digit_val(s[i]);
        if 0 <= v <= u64::MAX {
            digits_fold(s, i + 1, b, v as u64)
        } else {
            None
        }
    }
}

/// Strip trailing fractional zeros and normalise zero, giving the canonical
/// representation of `mant * 10^(-scale)`.
pub open spec fn normalize(neg: bool, mant: u64, scale: nat) -> Decimal
    decreases scale,
{
    if scale > 0 && mant % 10 == 0 {
        normalize(neg, (mant / 10) as u64, (scale - 1) as nat)
    } else if mant == 0 {
        Decimal { neg: false, mant: 0, scale: 0 }
    } else {
        Decimal { neg, mant, scale: scale as usize }
    }
}

pub proof fn lemma_normalize_wf(neg: bool, mant: u64, scale: nat)
    requires
        scale <= usize::MAX,
    ensures
        normalize(neg, mant, scale).wf(),
    decreases scale,
{
    if scale > 0 && mant % 10 == 0 {
        lemma_normalize_wf(neg, (mant / 10) as u64, (scale - 1) as nat);
    }
}

/// Parse `s[a..b)` as a plain decimal: an optional minus sign, at least one
/// integer digit, and an optional fractional part with at least one digit.
/// The whole range must be consumed. `None` also when the digits exceed the
/// range of the mantissa.
pub open spec fn parse_decimal_at(s: Seq<char>, a: int, b: int) -> Option<Decimal> {
    let neg = a < b && s[a] == '-';
    let st = if neg { a + 1 } else { a };
    let ie = digits_end(s, st, b);
    if ie == st {
        None
    } else {
        match digits_fold(s, st, ie, 0u64) {
            Some(m0) => {
                if ie == b {
                    Some(normalize(neg, m0, 0))
                } else if s[ie] == '.' {
                    let fe = digits_end(s, ie + 1, b);
                    if fe == ie + 1 || fe != b {
                        None
                    } else {
                        match digits_fold(s, ie + 1, fe, m0) {
                            Some(m1) => Some(normalize(neg, m1, (fe - (ie + 1)) as nat)),
                            None => None,
                        }
                    }
                } else {
                    None
                }
            },
            None => None,
        }
    }
}

/// Parse a whole character sequence as a decimal value.
pub open spec fn parse_decimal_value(s: Seq<char>) -> Option<Decimal> {
    parse_decimal_at(s, 0, s.len() as int)
}

pub proof fn lemma_parse_decimal_wf(s: Seq<char>, a: int, b: int)
    requires
        0 <= a <= b <= s.len(),
        b <= usize::MAX,
    ensures
        parse_decimal_at(s, a, b) matches Some(d) ==> d.wf(),
{
    let neg = a < b && s[a] == '-';
    let st = if neg { a + 1 } else { a };
    let ie = digits_end(s, st, b);
    lemma_digits_end_bounds(s, st, b);
    if ie != st {
        match digits_fold(s, st, ie, 0u64) {
            Some(m0) => {
                if ie == b {
                    lemma_normalize_wf(neg, m0, 0);
                } else if s[ie] == '.' {
                    let fe = digits_end(s, ie + 1, b);
                    lemma_digits_end_bounds(s, ie + 1, b);
                    if !(fe == ie + 1 || fe != b) {
                        match digits_fold(s, ie + 1, fe, m0) {
                            Some(m1) => {
                                lemma_normalize_wf(neg, m1, (fe - (ie + 1)) as nat);
                            },
                            None => {},
                        }
                    }
                }
            },
            None => {},
        }
    }
}

/// The mantissa with its sign: the value of `d` is
/// `signed_mant(d) / 10^scale`.
pub open spec fn signed_mant(d: Decimal) -> int {
    if d.neg {
        -(d.mant as int)
    } else {
        d.mant as int
    }
}

/// Canonical form is unique: two well-formed decimals denoting the same
/// value — their cross-multiplied fractions agree — are the same
/// representation. Equal values therefore compare equal, whichever carrier
/// they were read from.
pub proof fn lemma_canonical_unique(d1: Decimal, d2: Decimal)
    requires
        d1.wf(),
        d2.wf(),
        signed_mant(d1) * vstd::arithmetic::power::pow(10, d2.scale as nat) == signed_mant(d2)
            * vstd::arithmetic::power::pow(10, d1.scale as nat),
    ensures
        d1 == d2,
{
    let p1 = vstd::arithmetic::power::pow(10, d1.scale as nat);
    let p2 = vstd::arithmetic::power::pow(10, d2.scale as nat);
    vstd::arithmetic::power::lemma_pow_positive(10, d1.scale as nat);
    vstd::arithmetic::power::lemma_pow_positive(10, d2.scale as nat);
    if d1.mant == 0 || d2.mant == 0 {
        if d1.mant == 0 {
            assert(signed_mant(d1) == 0);
            assert(signed_mant(d2) * p1 == 0) by (nonlinear_arith)
                requires
                    signed_mant(d1) == 0,
                    signed_mant(d1) * p2 == signed_mant(d2) * p1,
            ;
            assert(signed_mant(d2) == 0) by (nonlinear_arith)
                requires
                    signed_mant(d2) * p1 == 0,
                    p1 > 0,
            ;
        } else {
            assert(signed_mant(d1) * p2 == 0) by (nonlinear_arith)
                requires
                    signed_mant(d2) == 0,
                    signed_mant(d1) * p2 == signed_mant(d2) * p1,
            ;
            assert(signed_mant(d1) == 0) by (nonlinear_arith)
                requires
                    signed_mant(d1) * p2 == 0,
                    p2 > 0,
            ;
        }
    } else {
        // both sides are nonzero, so the signs must agree
        assert(d1.neg == d2.neg) by (nonlinear_arith)
            requires
                signed_mant(d1) * p2 == signed_mant(d2) * p1,
                p1 > 0,
                p2 > 0,
                d1.mant > 0,
                d2.mant > 0,
                signed_mant(d1) == (if d1.neg {
                    -(d1.mant as int)
                } else {
                    d1.mant as int
                }),
                signed_mant(d2) == (if d2.neg {
                    -(d2.mant as int)
                } else {
                    d2.mant as int
                }),
        ;
        assert((d1.mant as int) * p2 == (d2.mant as int) * p1) by (nonlinear_arith)
            requires
                signed_mant(d1) * p2 == signed_mant(d2) * p1,
                d1.neg == d2.neg,
                signed_mant(d1) == (if d1.neg {
                    -(d1.mant as int)
                } else {
                    d1.mant as int
                }),
                signed_mant(d2) == (if d2.neg {
                    -(d2.mant as int)
                } else {
                    d2.mant as int
                }),
        ;
        lemma_same_scale(d1.mant, d1.scale as nat, d2.mant, d2.scale as nat);
    }
}

/// For positive mantissas in canonical form, equal cross-multiplied values
/// force equal scales and equal mantissas.
proof fn lemma_same_scale(m1: u64, s1: nat, m2: u64, s2: nat)
    requires
        m1 > 0,
        m2 > 0,
        s1 > 0 ==> m1 % 10 != 0,
        s2 > 0 ==> m2 % 10 != 0,
        (m1 as int) * vstd::arithmetic::power::pow(10, s2) == (m2 as int)
            * vstd::arithmetic::power::pow(10, s1),
    ensures
        m1 == m2,
        s1 == s2,
    decreases s1,
{
    let p1 = vstd::arithmetic::power::pow(10, s1);
    let p2 = vstd::arithmetic::power::pow(10, s2);
    vstd::arithmetic::power::lemma_pow_positive(10, s1);
    vstd::arithmetic::power::lemma_pow_positive(10, s2);
    if s1 == s2 {
        assert(m1 == m2) by (nonlinear_arith)
            requires
                (m1 as int) * p2 == (m2 as int) * p1,
                p1 == p2,
                p1 > 0,
        ;
    } else if s1 < s2 {
        // then 10 divides m1 * 10^(s2-s1) == m2, against canonical form
        vstd::arithmetic::power::lemma_pow_adds(10, s1, (s2 - s1) as nat);
        let q = vstd::arithmetic::power::pow(10, (s2 - s1) as nat);
        vstd::arithmetic::power::lemma_pow_positive(10, (s2 - s1) as nat);
        assert((m1 as int) * q == m2 as int) by (nonlinear_arith)
            requires
                (m1 as int) * (p1 * q) == (m2 as int) * p1,
                p1 > 0,
        ;
        vstd::arithmetic::power::lemma_pow_adds(10, ((s2 - s1) - 1) as nat, 1);
        vstd::arithmetic::power::lemma_pow1(10);
        let q0 = vstd::arithmetic::power::pow(10, ((s2 - s1) - 1) as nat);
        assert(((s2 - s1) - 1) as nat + 1nat == (s2 - s1) as nat);
        assert(q == q0 * vstd::arithmetic::power::pow(10, 1));
        assert(q == q0 * 10);
        assert((m1 as int) * (q0 * 10) == ((m1 as int) * q0) * 10) by (nonlinear_arith);
        vstd::arithmetic::div_mod::lemma_mod_multiples_basic((m1 as int) * q0, 10);
        assert((m2 as int) % 10 == 0);
        assert(false);
    } else {
        lemma_same_scale(m2, s2, m1, s1);
    }
}

pub open spec fn digit_char(d: int) -> char {
    (48 + d) as char
}

/// The decimal digits of `m`, most significant first; empty for zero.
pub open spec fn digits_of(m: nat) -> Seq<char>
    decreases m,
{
    if m == 0 {
        Seq::empty()
    } else {
        digits_of(m / 10).push(digit_char((m % 10) as int))
    }
}

/// The digits as written: zero is written "0".
pub open spec fn rendered_digits(m: nat) -> Seq<char> {
    if m == 0 {
        seq!['0']
    } else {
        digits_of(m)
    }
}

pub open spec fn zero_chars(n: nat) -> Seq<char> {
    Seq::new(n, |i: int| '0')
}

/// The canonical text of a decimal value: the mantissa's digits with the
/// point `scale` places from the right, a leading zero before a bare
/// fraction, and a minus sign when negative.
pub open spec fn dec_text(d: Decimal) -> Seq<char> {
    let ds = rendered_digits(d.mant as nat);
    let body = if d.scale == 0 {
        ds
    } else if ds.len() > d.scale {
        ds.subrange(0, ds.len() - d.scale) + seq!['.'] + ds.subrange(
            ds.len() - d.scale,
            ds.len() as int,
        )
    } else {
        seq!['0', '.'] + zero_chars((d.scale - ds.len()) as nat) + ds
    };
    if d.neg {
        seq!['-'] + body
    } else {
        body
    }
}

proof fn lemma_digit_char(d: int)
    requires
        0 <= d <= 9,
    ensures
        is_digit(digit_char(d)),
        digit_val(digit_char(d)) == d,
        digit_char(d) != '.' && digit_char(d) != '-',
{
}

proof fn lemma_digits_of_are_digits(m: nat)
    ensures
        forall|i: int| 0 <= i < digits_of(m).len() ==> is_digit(#[trigger] digits_of(m)[i]),
        m > 0 ==> digits_of(m).len() >= 1,
    decreases m,
{
    if m > 0 {
        lemma_digits_of_are_digits(m / 10);
        lemma_digit_char((m % 10) as int);
        assert forall|i: int| 0 <= i < digits_of(m).len() implies is_digit(
            #[trigger] digits_of(m)[i],
        ) by {
            if i < digits_of(m).len() - 1 {
                assert(digits_of(m)[i] == digits_of(m / 10)[i]);
            }
        }
    }
}

/// Folding one more digit on the right.
proof fn lemma_fold_snoc(s: Seq<char>, i: int, e: int, acc: u64)
    requires
        i <= e - 1,
    ensures
        digits_fold(s, i, e, acc) == (match digits_fold(s, i, e - 1, acc) {
            Some(v) => {
                let w = v * 10 + digit_val(s[e - 1]);
                if 0 <= w <= u64::MAX {
                    Some(w as u64)
                } else {
                    None
                }
            },
            None => None,
        }),
    decreases e - i,
{
    if i == e - 1 {
        assert(digits_fold(s, i, e - 1, acc) == Some(acc));
        let w = acc * 10 + digit_val(s[i]);
        if 0 <= w <= u64::MAX {
            assert(digits_fold(s, i, e, acc) == digits_fold(s, i + 1, e, w as u64));
            assert(digits_fold(s, i + 1, e, w as u64) == Some(w as u64));
        } else {
            assert(digits_fold(s, i, e, acc) == None::<u64>);
        }
    } else {
        let v0 = acc * 10 + digit_val(s[i]);
        if 0 <= v0 <= u64::MAX {
            lemma_fold_snoc(s, i + 1, e, v0 as u64);
        }
    }
}

/// Folding ranges that spell the same characters gives the same value.
proof fn lemma_fold_congruent(s1: Seq<char>, i1: int, s2: Seq<char>, i2: int, len: int, acc: u64)
    requires
        len >= 0,
        forall|k: int| 0 <= k < len ==> s1[#[trigger] (i1 + k)] == s2[i2 + k],
    ensures
        digits_fold(s1, i1, i1 + len, acc) == digits_fold(s2, i2, i2 + len, acc),
    decreases len,
{
    if len > 0 {
        assert(s1[i1 + 0] == s2[i2 + 0]);
        assert forall|k: int| 0 <= k < len - 1 implies s1[#[trigger] (i1 + 1 + k)] == s2[i2 + 1
            + k] by {
            assert(s1[i1 + (k + 1)] == s2[i2 + (k + 1)]);
        }
        let v = acc * 10 + digit_val(s1[i1]);
        if 0 <= v <= u64::MAX {
            lemma_fold_congruent(s1, i1 + 1, s2, i2 + 1, len - 1, v as u64);
        }
    }
}

/// Folding is sequential: a range can be split anywhere.
proof fn lemma_fold_compose(s: Seq<char>, i: int, k: int, e: int, acc: u64)
    requires
        i <= k <= e,
    ensures
        digits_fold(s, i, e, acc) == (match digits_fold(s, i, k, acc) {
            Some(v) => digits_fold(s, k, e, v),
            None => None,
        }),
    decreases k - i,
{
    if i < k {
        let v = acc * 10 + digit_val(s[i]);
        if 0 <= v <= u64::MAX {
            lemma_fold_compose(s, i + 1, k, e, v as u64);
        }
    }
}

/// The digits of `m` fold back to `m`.
proof fn lemma_fold_digits_of(m: nat)
    requires
        m <= u64::MAX,
    ensures
        digits_fold(digits_of(m), 0, digits_of(m).len() as int, 0u64) == Some(m as u64),
    decreases m,
{
    if m > 0 {
        let ds = digits_of(m);
        let prefix = digits_of(m / 10);
        lemma_fold_digits_of(m / 10);
        lemma_fold_congruent(ds, 0, prefix, 0, prefix.len() as int, 0u64);
        lemma_fold_snoc(ds, 0, ds.len() as int, 0u64);
        lemma_digit_char((m % 10) as int);
        assert(ds[ds.len() - 1] == digit_char((m % 10) as int));
        assert((m / 10) * 10 + (m % 10) == m) by (nonlinear_arith);
    }
}

/// Folding a run of zero characters onto zero stays zero.
proof fn lemma_fold_zero_run(s: Seq<char>, i: int, e: int)
    requires
        i <= e,
        forall|k: int| i <= k < e ==> s[k] == '0',
    ensures
        digits_fold(s, i, e, 0u64) == Some(0u64),
    decreases e - i,
{
    if i < e {
        lemma_fold_zero_run(s, i + 1, e);
    }
}

/// A run of digits followed by a non-digit (or the end) scans exactly to
/// its end.
proof fn lemma_digits_end_run(s: Seq<char>, i: int, e: int, b: int)
    requires
        0 <= i <= e <= b <= s.len(),
        forall|k: int| i <= k < e ==> is_digit(s[k]),
        e < b ==> !is_digit(s[e]),
    ensures
        digits_end(s, i, b) == e,
    decreases e - i,
{
    if i < e {
        lemma_digits_end_run(s, i + 1, e, b);
    }
}

proof fn lemma_rendered_fold(m: nat)
    requires
        m <= u64::MAX,
    ensures
        rendered_digits(m).len() >= 1,
        forall|i: int| 0 <= i < rendered_digits(m).len() ==> is_digit(
            #[trigger] rendered_digits(m)[i],
        ),
        digits_fold(rendered_digits(m), 0, rendered_digits(m).len() as int, 0u64) == Some(
            m as u64,
        ),
{
    lemma_digits_of_are_digits(m);
    if m == 0 {
        let ds = rendered_digits(0);
        assert(ds =~= seq!['0']);
        assert(digit_val('0') == 0);
        assert(digits_fold(ds, 1, 1, 0u64) == Some(0u64));
        assert(digits_fold(ds, 0, 1, 0u64) == Some(0u64));
    } else {
        lemma_fold_digits_of(m);
    }
}

/// What is written can be read back: the decimal parse of a canonical
/// rendering returns exactly the value that was rendered. With this, a
/// checkpoint written as canonical text reconstructs its records exactly.
pub proof fn lemma_text_round_trip(d: Decimal)
    requires
        d.wf(),
    ensures
        parse_decimal_value(dec_text(d)) == Some(d),
{
    let t = dec_text(d);
    let m = d.mant as nat;
    let ds = rendered_digits(m);
    let n = ds.len() as int;
    let b = t.len() as int;
    let off: int = if d.neg { 1 } else { 0 };
    lemma_rendered_fold(m);
    let scale = d.scale as int;
    if scale == 0 {
        // body is just the digits
        assert(b == off + n);
        assert forall|j: int| 0 <= j < n implies t[#[trigger] (off + j)] == ds[j] by {}
        if d.neg {
            assert(t[0] == '-');
        } else {
            assert(t[0] == ds[0]);
            assert(is_digit(ds[0]));
            assert(t[0] != '-');
        }
        assert forall|k: int| off <= k < b implies is_digit(t[k]) by {
            assert(t[off + (k - off)] == ds[k - off]);
        }
        lemma_digits_end_run(t, off, b, b);
        lemma_fold_congruent(t, off, ds, 0, n, 0u64);
        assert(digits_fold(t, off, off + n, 0u64) == Some(d.mant));
        if d.mant == 0 {
            assert(normalize(d.neg, 0, 0) == d);
        } else {
            assert(normalize(d.neg, d.mant, 0) == d);
        }
    } else if n > scale {
        // digits on both sides of the point
        let k = n - scale;
        assert(d.mant != 0);
        let body = ds.subrange(0, k) + seq!['.'] + ds.subrange(k, n);
        assert(b == off + n + 1);
        assert forall|j: int| 0 <= j < k implies t[#[trigger] (off + j)] == ds[j] by {}
        assert(t[off + k] == '.');
        assert forall|j: int| 0 <= j < scale implies t[#[trigger] (off + k + 1 + j)] == ds[k
            + j] by {}
        if d.neg {
            assert(t[0] == '-');
        } else {
            assert(t[off + 0] == ds[0]);
            assert(t[0] != '-');
        }
        assert forall|q: int| off <= q < off + k implies is_digit(t[q]) by {
            assert(t[off + (q - off)] == ds[q - off]);
        }
        assert(!is_digit('.'));
        lemma_digits_end_run(t, off, off + k, b);
        lemma_fold_compose(ds, 0, k, n, 0u64);
        lemma_fold_congruent(t, off, ds, 0, k, 0u64);
        let v1 = match digits_fold(ds, 0, k, 0u64) {
            Some(v) => v,
            None => 0u64,
        };
        assert(digits_fold(ds, 0, k, 0u64) == Some(v1));
        assert(digits_fold(ds, k, n, v1) == Some(d.mant));
        assert forall|q: int| off + k + 1 <= q < b implies is_digit(t[q]) by {
            assert(t[off + k + 1 + (q - (off + k + 1))] == ds[k + (q - (off + k + 1))]);
        }
        lemma_digits_end_run(t, off + k + 1, b, b);
        lemma_fold_congruent(t, off + k + 1, ds, k, scale, v1);
        assert(digits_fold(t, off + k + 1, b, v1) == Some(d.mant));
        assert(normalize(d.neg, d.mant, (d.scale) as nat) == d);
    } else {
        // a bare fraction: leading zero, then padding zeros, then the digits
        let z = scale - n;
        assert(d.mant != 0);
        assert(b == off + 2 + z + n);
        assert(t[off + 0] == '0');
        assert(t[off + 1] == '.');
        assert forall|j: int| 0 <= j < z implies t[#[trigger] (off + 2 + j)] == '0' by {}
        assert forall|j: int| 0 <= j < n implies t[#[trigger] (off + 2 + z + j)] == ds[j] by {}
        if d.neg {
            assert(t[0] == '-');
        } else {
            assert(t[0] == '0');
            assert(t[0] != '-');
        }
        assert(is_digit('0') && !is_digit('.'));
        lemma_digits_end_run(t, off, off + 1, b);
        assert(digits_fold(t, off + 1, off + 1, 0u64) == Some(0u64));
        assert(digit_val('0') == 0);
        assert(digits_fold(t, off, off + 1, 0u64) == Some(0u64));
        assert forall|q: int| off + 2 <= q < b implies is_digit(t[q]) by {
            if q < off + 2 + z {
                assert(t[off + 2 + (q - (off + 2))] == '0');
            } else {
                assert(t[off + 2 + z + (q - (off + 2 + z))] == ds[q - (off + 2 + z)]);
            }
        }
        lemma_digits_end_run(t, off + 2, b, b);
        lemma_fold_zero_run(t, off + 2, off + 2 + z);
        lemma_fold_compose(t, off + 2, off + 2 + z, b, 0u64);
        lemma_fold_congruent(t, off + 2 + z, ds, 0, n, 0u64);
        assert(digits_fold(t, off + 2 + z, b, 0u64) == Some(d.mant));
        assert(digits_fold(t, off + 2, b, 0u64) == Some(d.mant));
        assert(normalize(d.neg, d.mant, (d.scale) as nat) == d);
    }
}

proof fn lemma_digits_end_shift(s: Seq<char>, a: int, b: int, i: int)
    requires
        0 <= a <= i <= b <= s.len(),
    ensures
        digits_end(s, i, b) == a + digits_end(s.subrange(a, b), i - a, b - a),
    decreases b - i,
{
    let sub = s.subrange(a, b);
    if i < b && is_digit(s[i]) {
        assert(sub[i - a] == s[i]);
        lemma_digits_end_shift(s, a, b, i + 1);
    } else {
        if i < b {
            assert(sub[i - a] == s[i]);
        }
    }
}

proof fn lemma_digits_fold_shift(s: Seq<char>, a: int, b: int, i: int, e: int, acc: u64)
    requires
        0 <= a <= i <= e <= b <= s.len(),
    ensures
        digits_fold(s, i, e, acc) == digits_fold(s.subrange(a, b), i - a, e - a, acc),
    decreases e - i,
{
    let sub = s.subrange(a, b);
    if i < e {
        assert(sub[i - a] == s[i]);
        let v = acc * 10 + digit_val(s[i]);
        if 0 <= v <= u64::MAX {
            lemma_digits_fold_shift(s, a, b, i + 1, e, (v as u64));
        }
    }
}

/// A positional parse reads exactly the characters of its range: it equals
/// the whole-sequence parse of that range's content.
pub proof fn lemma_parse_decimal_extract(s: Seq<char>, a: int, b: int)
    requires
        0 <= a <= b <= s.len(),
    ensures
        parse_decimal_at(s, a, b) == parse_decimal_value(s.subrange(a, b)),
{
    let sub = s.subrange(a, b);
    let neg = a < b && s[a] == '-';
    if a < b {
        assert(sub[0] == s[a]);
    }
    let st = if neg { a + 1 } else { a };
    lemma_digits_end_shift(s, a, b, st);
    let ie = digits_end(s, st, b);
    lemma_digits_end_bounds(s, st, b);
    if ie != st {
        lemma_digits_fold_shift(s, a, b, st, ie, 0u64);
        match digits_fold(s, st, ie, 0u64) {
            Some(m0) => {
                if ie == b {
                } else if s[ie] == '.' {
                    assert(sub[ie - a] == s[ie]);
                    lemma_digits_end_shift(s, a, b, ie + 1);
                    let fe = digits_end(s, ie + 1, b);
                    lemma_digits_end_bounds(s, ie + 1, b);
                    if !(fe == ie + 1 || fe != b) {
                        lemma_digits_fold_shift(s, a, b, ie + 1, fe, m0);
                    }
                } else {
                    assert(sub[ie - a] == s[ie]);
                }
            },
            None => {},
        }
    }
}

fn is_digit_at(s: &Vec<char>, j: usize) -> (r: bool)
    requires
        j < s.len(),
    ensures
        r == is_digit(s@[j as int]),
{
    let c = s[j];
    '0' <= c && c <= '9'
}

fn digits_end_at(s: &Vec<char>, i: usize, b: usize) -> (r: usize)
    requires
        i <= b <= s.len(),
    ensures
        r as int == digits_end(s@, i as int, b as int),
        i <= r <= b,
{
    let mut j: usize = i;
    while j < b && is_digit_at(s, j)
        invariant
            i <= j <= b <= s.len(),
            digits_end(s@, i as int, b as int) == digits_end(s@, j as int, b as int),
        decreases b - j,
    {
        j += 1;
    }
    j
}

fn digits_fold_at(s: &Vec<char>, i: usize, b: usize, acc: u64) -> (r: Option<u64>)
    requires
        i <= b <= s.len(),
        forall|k: int| i <= k < b ==> is_digit(s@[k]),
    ensures
        r == digits_fold(s@, i as int, b as int, acc),
{
    let mut j: usize = i;
    let mut a: u64 = acc;
    while j < b
        invariant
            i <= j <= b <= s.len(),
            forall|k: int| i <= k < b ==> is_digit(s@[k]),
            digits_fold(s@, i as int, b as int, acc) == digits_fold(s@, j as int, b as int, a),
        decreases b - j,
    {
        let c = s[j];
        assert(is_digit(s@[j as int]));
        let d: u64 = (c as u32 as u64) - ('0' as u32 as u64);
        if a > (u64::MAX - d) / 10 {
            assert(a * 10 + digit_val(s@[j as int]) > u64::MAX) by {
                assert(a >= (u64::MAX - d) / 10 + 1);
                assert(((u64::MAX - d) / 10 + 1) * 10 >= u64::MAX - d + 1) by (nonlinear_arith);
                assert(a * 10 >= ((u64::MAX - d) / 10 + 1) * 10) by (nonlinear_arith)
                    requires
                        a >= (u64::MAX - d) / 10 + 1,
                ;
            };
            return None;
        }
        assert(a * 10 + d <= u64::MAX) by {
            assert(a <= (u64::MAX - d) / 10);
            assert(a * 10 <= ((u64::MAX - d) / 10) * 10) by (nonlinear_arith)
                requires
                    a <= (u64::MAX - d) / 10,
            ;
            assert(((u64::MAX - d) / 10) * 10 <= u64::MAX - d) by (nonlinear_arith);
        };
        a = a * 10 + d;
        j += 1;
    }
    Some(a)
}

/// Parse `s[a..b)` as a decimal value, exactly as `parse_decimal_at` says.
pub fn parse_decimal_range(s: &Vec<char>, a: usize, b: usize) -> (r: Option<Decimal>)
    requires
        a <= b <= s.len(),
    ensures
        r == parse_decimal_at(s@, a as int, b as int),
        r matches Some(d) ==> d.wf(),
{
    proof {
        lemma_parse_decimal_wf(s@, a as int, b as int);
    }
    let neg = a < b && s[a] == '-';
    let st = if neg { a + 1 } else { a };
    let ie = digits_end_at(s, st, b);
    if ie == st {
        return None;
    }
    proof {
        lemma_digits_end_bounds(s@, st as int, b as int);
    }
    let m0 = match digits_fold_at(s, st, ie, 0u64) {
        Some(m) => m,
        None => {
            return None;
        },
    };
    if ie == b {
        return Some(normalize_exec(neg, m0, 0));
    }
    if s[ie] == '.' {
        let fe = digits_end_at(s, ie + 1, b);
        if fe == ie + 1 || fe != b {
            return None;
        }
        proof {
            lemma_digits_end_bounds(s@, ie as int + 1, b as int);
        }
        match digits_fold_at(s, ie + 1, fe, m0) {
            Some(m1) => Some(normalize_exec(neg, m1, fe - (ie + 1))),
            None => None,
        }
    } else {
        None
    }
}

spec fn rev_chars(rv: Seq<u64>) -> Seq<char> {
    Seq::new(rv.len(), |i: int| digit_char(rv[rv.len() - 1 - i] as int))
}

fn push_digit(out: &mut String, d: u64)
    requires
        d < 10,
    ensures
        final(out)@ == old(out)@.push(digit_char(d as int)),
{
    let digits = "0123456789";
    proof {
        reveal_strlit("0123456789");
        assert(digits@[d as int] == digit_char(d as int));
    }
    let piece = digits.substring_char(d as usize, d as usize + 1);
    out.append(piece);
    proof {
        assert(piece@ =~= seq![digit_char(d as int)]);
        assert(out@ =~= old(out)@.push(digit_char(d as int)));
    }
}

/// Append the digits `rev[hi-1]` down to `rev[lo]` — that is, the slice
/// `[len-hi, len-lo)` of the most-significant-first rendering.
fn push_digits(out: &mut String, rev: &Vec<u64>, hi: usize, lo: usize)
    requires
        lo <= hi <= rev@.len(),
        forall|i: int| 0 <= i < rev@.len() ==> rev@[i] < 10,
    ensures
        final(out)@ == old(out)@ + rev_chars(rev@).subrange(
            rev@.len() - hi,
            rev@.len() - lo,
        ),
{
    let ghost n = rev@.len() as int;
    let ghost rc = rev_chars(rev@);
    let mut j: usize = hi;
    proof {
        assert(out@ =~= old(out)@ + rc.subrange(n - hi, n - hi));
    }
    while j > lo
        invariant
            lo <= j <= hi <= rev@.len(),
            n == rev@.len(),
            rc == rev_chars(rev@),
            forall|i: int| 0 <= i < rev@.len() ==> rev@[i] < 10,
            out@ == old(out)@ + rc.subrange(n - hi, n - j),
        decreases j,
    {
        j -= 1;
        push_digit(out, rev[j]);
        proof {
            assert(rc[n - 1 - j] == digit_char(rev@[j as int] as int));
            assert(out@ =~= old(out)@ + rc.subrange(n - hi, n - j));
        }
    }
}

impl Decimal {
    /// The canonical text of the value — exactly `dec_text`, which the
    /// decimal parse reads back to this very value.
    pub fn to_text(&self) -> (r: String)
        ensures
            r@ == dec_text(*self),
    {
        let ghost mds = rendered_digits(self.mant as nat);
        // the mantissa's digits, least significant first
        let mut rev: Vec<u64> = Vec::new();
        if self.mant == 0 {
            rev.push(0);
            proof {
                assert(rev_chars(rev@) =~= seq!['0']);
                assert(mds =~= rev_chars(rev@));
            }
        } else {
            let mut m: u64 = self.mant;
            proof {
                assert(rev_chars(rev@) =~= Seq::<char>::empty());
                assert(digits_of(self.mant as nat) =~= digits_of(m as nat) + rev_chars(rev@));
            }
            while m > 0
                invariant
                    digits_of(self.mant as nat) == digits_of(m as nat) + rev_chars(rev@),
                    forall|i: int| 0 <= i < rev@.len() ==> rev@[i] < 10,
                decreases m,
            {
                let ghost rev_old = rev@;
                let ghost m_old = m as nat;
                let dg = m % 10;
                rev.push(dg);
                m = m / 10;
                proof {
                    assert(rev_chars(rev@) =~= seq![digit_char(dg as int)] + rev_chars(rev_old));
                    assert(digits_of(m_old) == digits_of(m_old / 10).push(
                        digit_char((m_old % 10) as int),
                    ));
                    assert(digits_of(m_old / 10).push(digit_char(dg as int)) =~= digits_of(
                        m_old / 10,
                    ) + seq![digit_char(dg as int)]);
                    assert(digits_of(self.mant as nat) =~= digits_of(m as nat) + rev_chars(rev@));
                }
            }
            proof {
                assert(digits_of(0nat) =~= Seq::<char>::empty());
                assert(mds =~= rev_chars(rev@));
            }
        }
        let n = rev.len();
        let ghost sign: Seq<char> = if self.neg {
            seq!['-']
        } else {
            Seq::empty()
        };
        let mut out = String::new();
        if self.neg {
            out.append("-");
            proof {
                reveal_strlit("-");
                assert(out@ =~= sign);
            }
        } else {
            proof {
                assert(out@ =~= sign);
            }
        }
        if self.scale == 0 {
            push_digits(&mut out, &rev, n, 0);
            proof {
                assert(rev_chars(rev@).subrange(0, n as int) =~= mds);
                assert(out@ =~= dec_text(*self));
            }
        } else if n > self.scale {
            push_digits(&mut out, &rev, n, self.scale);
            out.append(".");
            push_digits(&mut out, &rev, self.scale, 0);
            proof {
                reveal_strlit(".");
                let k = n - self.scale;
                assert(rev_chars(rev@).subrange(0, k as int) =~= mds.subrange(0, k as int));
                assert(rev_chars(rev@).subrange(k as int, n as int) =~= mds.subrange(
                    k as int,
                    n as int,
                ));
                assert(out@ =~= dec_text(*self));
            }
        } else {
            out.append("0.");
            proof {
                reveal_strlit("0.");
                assert(out@ =~= sign + seq!['0', '.'] + zero_chars(0));
            }
            let z = self.scale - n;
            let mut w: usize = 0;
            while w < z
                invariant
                    w <= z,
                    out@ == sign + seq!['0', '.'] + zero_chars(w as nat),
                decreases z - w,
            {
                push_digit(&mut out, 0);
                w += 1;
                proof {
                    assert(digit_char(0) == '0');
                    assert(out@ =~= sign + seq!['0', '.'] + zero_chars(w as nat));
                }
            }
            push_digits(&mut out, &rev, n, 0);
            proof {
                assert(rev_chars(rev@).subrange(0, n as int) =~= mds);
                assert(out@ =~= dec_text(*self));
            }
        }
        out
    }
}

/// Parse a whole string as a decimal value.
pub fn parse_decimal_text(t: &str) -> (r: Option<Decimal>)
    ensures
        r == parse_decimal_value(t@),
        r matches Some(d) ==> d.wf(),
{
    let v = chars_of(t);
    parse_decimal_range(&v, 0, v.len())
}

fn normalize_exec(neg: bool, mant: u64, scale: usize) -> (r: Decimal)
    ensures
        r == normalize(neg, mant, scale as nat),
{
    let mut m: u64 = mant;
    let mut sc: usize = scale;
    while sc > 0 && m % 10 == 0
        invariant
            normalize(neg, mant, scale as nat) == normalize(neg, m, sc as nat),
        decreases sc,
    {
        m = m / 10;
        sc = sc - 1;
    }
    if m == 0 {
        Decimal { neg: false, mant: 0, scale: 0 }
    } else {
        Decimal { neg, mant: m, scale: sc }
    }
}

} // verus!
