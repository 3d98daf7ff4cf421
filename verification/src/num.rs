//! Exact decimal numbers.
//!
//! Every numeric literal in the test language (`Vdd=1.0`, `tran 99.5n`,
//! `CLK=1`) is kept as an exact decimal value: a sign, a digit string and a
//! power-of-ten exponent, held in canonical form so that two literals denote
//! the same decimal number exactly when their `Dec` values are equal
//! (`0`, `0.0` and `0e9` all canonicalize alike).  Exponents beyond ±10^33
//! saturate at that bound.

use vstd::prelude::*;

use crate::text::digit_pred;
use crate::text::digit_run;
use crate::text::digit_val;
use crate::text::is_digit;
use crate::text::is_digit_c;
use crate::text::lemma_run_len;
use crate::text::run_len;

verus! {

/// Exponent magnitudes accumulate no further than this while a literal's
/// exponent digits are read.
pub const EXP_CAP: i128 = 1000000000000000000000000000000;

/// Canonical exponents are clamped to ±this bound.
pub const EXP_SAT: i128 = 1000000000000000000000000000000000;

/// An exact decimal number: `(-1)^neg · digits · 10^exp`, with `digits` read
/// as a base-10 integer.
#[derive(Debug, PartialEq, Eq)]
pub struct Dec {
    /// Sign; never set when the number is zero.
    pub neg: bool,
    /// Mantissa digits, most significant first, each `0..=9`; no leading or
    /// trailing zero digit; empty exactly when the number is zero.
    pub digits: Vec<u8>,
    /// Power-of-ten scale.
    pub exp: i128,
}

/// The mathematical content of a `Dec`.
pub struct DecV {
    pub neg: bool,
    pub digits: Seq<u8>,
    pub exp: int,
}

impl View for Dec {
    type V = DecV;

    open spec fn view(&self) -> DecV {
        DecV { neg: self.neg, digits: self.digits@, exp: self.exp as int }
    }
}

pub open spec fn wf_decv(d: DecV) -> bool {
    &&& forall|k: int| 0 <= k < d.digits.len() ==> #[trigger] d.digits[k] <= 9
    &&& d.digits.len() > 0 ==> d.digits[0] != 0 && d.digits[d.digits.len() - 1] != 0
    &&& d.digits.len() == 0 ==> !d.neg && d.exp == 0
    &&& -EXP_SAT <= d.exp <= EXP_SAT
}

impl Dec {
    /// Canonical-form invariant.
    pub open spec fn wf(&self) -> bool {
        wf_decv(self@)
    }
}

// ---------------------------------------------------------------------------
// Zero runs over digit sequences
// ---------------------------------------------------------------------------

/// Leading zero digits of `ds` from position `i`.
pub open spec fn zrun(ds: Seq<u8>, i: int) -> int
    decreases ds.len() - i when 0 <= i <= ds.len()
{
    if i >= ds.len() || ds[i] != 0 {
        0
    } else {
        1 + zrun(ds, i + 1)
    }
}

/// Zero digits of `ds` ending just before position `j`.
pub open spec fn zrun_back(ds: Seq<u8>, j: int) -> int
    decreases j when 0 <= j <= ds.len()
{
    if j <= 0 || ds[j - 1] != 0 {
        0
    } else {
        1 + zrun_back(ds, j - 1)
    }
}

pub proof fn lemma_zrun(ds: Seq<u8>, i: int)
    requires
        0 <= i <= ds.len(),
    ensures
        0 <= zrun(ds, i),
        i + zrun(ds, i) <= ds.len(),
        forall|k: int| i <= k < i + zrun(ds, i) ==> ds[k] == 0,
        i + zrun(ds, i) < ds.len() ==> ds[i + zrun(ds, i)] != 0,
    decreases ds.len() - i,
{
    if i < ds.len() && ds[i] == 0 {
        lemma_zrun(ds, i + 1);
    }
}

pub proof fn lemma_zrun_unique(ds: Seq<u8>, i: int, m: int)
    requires
        0 <= i <= m <= ds.len(),
        forall|k: int| i <= k < m ==> ds[k] == 0,
        m < ds.len() ==> ds[m] != 0,
    ensures
        zrun(ds, i) == m - i,
    decreases ds.len() - i,
{
    if i < m {
        lemma_zrun_unique(ds, i + 1, m);
    }
}

pub proof fn lemma_zrun_back(ds: Seq<u8>, j: int)
    requires
        0 <= j <= ds.len(),
    ensures
        0 <= zrun_back(ds, j) <= j,
        forall|k: int| j - zrun_back(ds, j) <= k < j ==> ds[k] == 0,
        j - zrun_back(ds, j) > 0 ==> ds[j - zrun_back(ds, j) - 1] != 0,
    decreases j,
{
    if j > 0 && ds[j - 1] == 0 {
        lemma_zrun_back(ds, j - 1);
    }
}

pub proof fn lemma_zrun_back_unique(ds: Seq<u8>, j: int, m: int)
    requires
        0 <= m <= j <= ds.len(),
        forall|k: int| m <= k < j ==> ds[k] == 0,
        m > 0 ==> ds[m - 1] != 0,
    ensures
        zrun_back(ds, j) == j - m,
    decreases j,
{
    if m < j {
        lemma_zrun_back_unique(ds, j - 1, m);
    }
}

// ---------------------------------------------------------------------------
// Canonicalization
// ---------------------------------------------------------------------------

pub open spec fn clamp_exp(e: int) -> int {
    if e > EXP_SAT as int {
        EXP_SAT as int
    } else if e < -(EXP_SAT as int) {
        -(EXP_SAT as int)
    } else {
        e
    }
}

/// The canonical `Dec` denoting `(-1)^neg · ds · 10^e`: leading zeros are
/// dropped, trailing zeros are folded into the exponent, zero loses its sign,
/// and the exponent is clamped to ±`EXP_SAT`.
pub open spec fn norm_dec(neg: bool, ds: Seq<u8>, e: int) -> DecV {
    let lead = zrun(ds, 0);
    if lead == ds.len() {
        DecV { neg: false, digits: Seq::empty(), exp: 0 }
    } else {
        let tz = zrun_back(ds, ds.len() as int);
        DecV {
            neg,
            digits: ds.subrange(lead, ds.len() - tz),
            exp: clamp_exp(e + tz),
        }
    }
}

/// Canonicalized `Dec` values are well formed.
pub proof fn lemma_norm_dec_wf(neg: bool, ds: Seq<u8>, e: int)
    requires
        forall|k: int| 0 <= k < ds.len() ==> #[trigger] ds[k] <= 9,
    ensures
        wf_decv(norm_dec(neg, ds, e)),
{
    lemma_zrun(ds, 0);
    lemma_zrun_back(ds, ds.len() as int);
    let lead = zrun(ds, 0);
    if lead < ds.len() {
        let tz = zrun_back(ds, ds.len() as int);
        assert(ds[lead] != 0);
        assert(ds.len() - tz > lead);
    }
}

fn clamp_exp_exec(e: i128) -> (r: i128)
    ensures
        r == clamp_exp(e as int),
{
    if e > EXP_SAT {
        EXP_SAT
    } else if e < -EXP_SAT {
        -EXP_SAT
    } else {
        e
    }
}

/// Build the canonical `Dec` for `(-1)^neg · ds · 10^e`.
fn norm(neg: bool, ds: &Vec<u8>, e: i128) -> (r: Dec)
    requires
        forall|k: int| 0 <= k < ds@.len() ==> #[trigger] ds@[k] <= 9,
        -EXP_SAT <= e <= EXP_SAT,
    ensures
        r@ == norm_dec(neg, ds@, e as int),
        r.wf(),
{
    proof {
        lemma_norm_dec_wf(neg, ds@, e as int);
    }
    let n = ds.len();
    let mut lead: usize = 0;
    while lead < n && ds[lead] == 0
        invariant
            n == ds@.len(),
            lead <= n,
            forall|k: int| 0 <= k < lead ==> ds@[k] == 0,
        decreases n - lead,
    {
        lead = lead + 1;
    }
    proof {
        lemma_zrun_unique(ds@, 0, lead as int);
    }
    if lead == n {
        let r = Dec { neg: false, digits: Vec::new(), exp: 0 };
        proof {
            assert(r@.digits =~= norm_dec(neg, ds@, e as int).digits);
        }
        return r;
    }
    let mut end: usize = n;
    while end > lead && ds[end - 1] == 0
        invariant
            lead <= end <= n,
            n == ds@.len(),
            forall|k: int| end <= k < n ==> ds@[k] == 0,
        decreases end,
    {
        end = end - 1;
    }
    proof {
        assert(ds@[lead as int] != 0);
        assert(end > lead) by {
            if end == lead {
                assert(ds@[lead as int] == 0);
            }
        }
        lemma_zrun_back_unique(ds@, n as int, end as int);
    }
    let tz: usize = n - end;
    let mut digits: Vec<u8> = Vec::new();
    let mut k: usize = lead;
    while k < end
        invariant
            lead <= k <= end <= ds@.len(),
            digits@ == ds@.subrange(lead as int, k as int),
        decreases end - k,
    {
        digits.push(ds[k]);
        k = k + 1;
        proof {
            assert(digits@ =~= ds@.subrange(lead as int, k as int));
        }
    }
    let exp = clamp_exp_exec(e + tz as i128);
    Dec { neg, digits, exp }
}

impl Dec {
    /// The decimal digits of `n`, most significant first; empty for zero.
    pub open spec fn spec_digits_of(n: int) -> Seq<u8>
        decreases n when n >= 0
    {
        if n <= 0 {
            Seq::empty()
        } else {
            Self::spec_digits_of(n / 10).push((n % 10) as u8)
        }
    }

    /// The canonical `Dec` denoting the integer `i`.
    pub fn from_int(i: i64) -> (r: Dec)
        ensures
            r@ == norm_dec(i < 0, Self::spec_digits_of(if i < 0 { -(i as int) } else { i as int }), 0),
            r.wf(),
    {
        let neg = i < 0;
        let mut n: u64 = if i < 0 {
            if i == i64::MIN {
                9223372036854775808u64
            } else {
                (-i) as u64
            }
        } else {
            i as u64
        };
        proof {
            assert(n as int == if i < 0 { -(i as int) } else { i as int });
        }
        let ghost n0 = n as int;
        let mut rev: Vec<u8> = Vec::new();
        proof {
            assert(Self::spec_digits_of(n0) =~= Self::spec_digits_of(n as int) + rev@.reverse());
        }
        while n > 0
            invariant
                Self::spec_digits_of(n0) =~= Self::spec_digits_of(n as int) + rev@.reverse(),
                forall|k: int| 0 <= k < rev@.len() ==> #[trigger] rev@[k] <= 9,
            decreases n,
        {
            let ghost pre = rev@;
            let ghost m = n as int;
            rev.push((n % 10) as u8);
            n = n / 10;
            proof {
                assert(rev@.reverse() =~= seq![(m % 10) as u8] + pre.reverse());
                assert(Self::spec_digits_of(m) == Self::spec_digits_of(m / 10).push(
                    (m % 10) as u8,
                ));
                assert(Self::spec_digits_of(m / 10).push((m % 10) as u8) + pre.reverse()
                    =~= Self::spec_digits_of(m / 10) + (seq![(m % 10) as u8] + pre.reverse()));
                assert(Self::spec_digits_of(n0) =~= Self::spec_digits_of(n as int)
                    + rev@.reverse());
            }
        }
        proof {
            assert(Self::spec_digits_of(n0) =~= rev@.reverse());
        }
        let mut ds: Vec<u8> = Vec::new();
        let mut k: usize = rev.len();
        while k > 0
            invariant
                k <= rev@.len(),
                forall|m: int| 0 <= m < rev@.len() ==> #[trigger] rev@[m] <= 9,
                ds@ =~= rev@.reverse().subrange(0, rev@.len() - k),
            decreases k,
        {
            k = k - 1;
            ds.push(rev[k]);
            proof {
                assert(ds@ =~= rev@.reverse().subrange(0, rev@.len() - k));
            }
        }
        proof {
            assert(ds@ =~= rev@.reverse());
            assert(forall|m: int| 0 <= m < ds@.len() ==> #[trigger] ds@[m] <= 9);
        }
        norm(neg, &ds, 0)
    }

    /// The canonical `Dec` denoting `(-1)^neg · digits · 10^exp`, for any
    /// digit string.
    pub fn new(neg: bool, digits: Vec<u8>, exp: i128) -> (r: Dec)
        requires
            forall|k: int| 0 <= k < digits@.len() ==> #[trigger] digits@[k] <= 9,
        ensures
            r@ == norm_dec(neg, digits@, clamp_exp(exp as int)),
            r.wf(),
    {
        let e = clamp_exp_exec(exp);
        norm(neg, &digits, e)
    }
}

// ---------------------------------------------------------------------------
// Scanning a numeric literal
// ---------------------------------------------------------------------------
// The literal grammar is `[-+]? ( digits [ '.' digits ] | '.' digits )
// [ ('e'|'E') [-+]? digits ]`, matched greedily at a fixed position: the
// longest run of integer digits, a fractional part only when a digit follows
// the dot, and an exponent part only when digits follow the marker.

/// Width of the sign, if any.
pub open spec fn num_sgn(s: Seq<char>, i: int) -> int {
    if i < s.len() && (s[i] == '+' || s[i] == '-') {
        1
    } else {
        0
    }
}

/// Count of integer-part digits.
pub open spec fn num_a(s: Seq<char>, i: int) -> int {
    run_len(s, i + num_sgn(s, i), digit_pred())
}

/// Position just after the integer part.
pub open spec fn num_p(s: Seq<char>, i: int) -> int {
    i + num_sgn(s, i) + num_a(s, i)
}

/// Is there a fractional part (a dot with at least one digit after it)?
pub open spec fn num_has_frac(s: Seq<char>, i: int) -> bool {
    let p = num_p(s, i);
    p + 1 < s.len() && s[p] == '.' && is_digit(s[p + 1])
}

/// Count of fraction digits.
pub open spec fn num_b(s: Seq<char>, i: int) -> int {
    if num_has_frac(s, i) {
        run_len(s, num_p(s, i) + 1, digit_pred())
    } else {
        0
    }
}

/// Position just after the mantissa.
pub open spec fn num_mant_end(s: Seq<char>, i: int) -> int {
    if num_has_frac(s, i) {
        num_p(s, i) + 1 + num_b(s, i)
    } else {
        num_p(s, i)
    }
}

/// Does a numeric literal start at `i`?
pub open spec fn num_matches(s: Seq<char>, i: int) -> bool {
    num_a(s, i) > 0 || num_has_frac(s, i)
}

/// Width of the exponent sign, if any.
pub open spec fn num_esgn(s: Seq<char>, i: int) -> int {
    let q = num_mant_end(s, i);
    if q + 1 < s.len() && (s[q + 1] == '+' || s[q + 1] == '-') {
        1
    } else {
        0
    }
}

/// Width of the exponent part (marker, sign and digits), or zero when the
/// marker is absent or not followed by digits.
pub open spec fn num_exp_len(s: Seq<char>, i: int) -> int {
    let q = num_mant_end(s, i);
    if q < s.len() && (s[q] == 'e' || s[q] == 'E') {
        let es = num_esgn(s, i);
        let d = run_len(s, q + 1 + es, digit_pred());
        if d > 0 {
            1 + es + d
        } else {
            0
        }
    } else {
        0
    }
}

/// Position just after the whole literal.
pub open spec fn num_end(s: Seq<char>, i: int) -> int {
    num_mant_end(s, i) + num_exp_len(s, i)
}

/// The digit values of `s[a..b]`.
pub open spec fn chars_digits(s: Seq<char>, a: int, b: int) -> Seq<u8> {
    Seq::new((b - a) as nat, |k: int| digit_val(s[a + k]) as u8)
}

/// All mantissa digits, integer part then fraction part.
pub open spec fn num_mant_digits(s: Seq<char>, i: int) -> Seq<u8> {
    let lo = i + num_sgn(s, i);
    chars_digits(s, lo, lo + num_a(s, i)) + if num_has_frac(s, i) {
        chars_digits(s, num_p(s, i) + 1, num_p(s, i) + 1 + num_b(s, i))
    } else {
        Seq::empty()
    }
}

/// Left-to-right decimal accumulation of `s[i..j]`, growth stopping at
/// `EXP_CAP`.
pub open spec fn exp_accum(s: Seq<char>, i: int, j: int, acc: int) -> int
    decreases j - i when i <= j
{
    if i >= j {
        acc
    } else {
        exp_accum(
            s,
            i + 1,
            j,
            if acc >= EXP_CAP as int {
                acc
            } else {
                acc * 10 + digit_val(s[i])
            },
        )
    }
}

pub proof fn lemma_exp_accum_bound(s: Seq<char>, i: int, j: int, acc: int)
    requires
        i <= j,
        0 <= acc < 10 * EXP_CAP as int,
        forall|k: int| i <= k < j ==> is_digit(#[trigger] s[k]),
    ensures
        0 <= exp_accum(s, i, j, acc) < 10 * EXP_CAP as int,
    decreases j - i,
{
    if i < j {
        if acc >= EXP_CAP as int {
            lemma_exp_accum_bound(s, i + 1, j, acc);
        } else {
            assert(is_digit(s[i]));
            lemma_exp_accum_bound(s, i + 1, j, acc * 10 + digit_val(s[i]));
        }
    }
}

/// The signed exponent the literal's exponent part denotes.
pub open spec fn num_exp_val(s: Seq<char>, i: int) -> int {
    if num_exp_len(s, i) > 0 {
        let q = num_mant_end(s, i);
        let es = num_esgn(s, i);
        let v = exp_accum(s, q + 1 + es, num_end(s, i), 0);
        if es == 1 && s[q + 1] == '-' {
            -v
        } else {
            v
        }
    } else {
        0
    }
}

/// The canonical decimal value of the literal starting at `i`.
pub open spec fn num_value(s: Seq<char>, i: int) -> DecV {
    norm_dec(
        i < s.len() && s[i] == '-',
        num_mant_digits(s, i),
        num_exp_val(s, i) - num_b(s, i),
    )
}

/// Greedy scan for a numeric literal at `i`: its width and value, or `None`
/// when no literal starts there.
pub open spec fn spec_scan_number(s: Seq<char>, i: int) -> Option<(int, DecV)> {
    if num_matches(s, i) {
        Some((num_end(s, i) - i, num_value(s, i)))
    } else {
        None
    }
}

/// A matched literal spans at least one character and stays inside `s`.
pub proof fn lemma_num_end_bounds(s: Seq<char>, i: int)
    requires
        0 <= i <= s.len(),
    ensures
        num_matches(s, i) ==> i < num_end(s, i) <= s.len(),
        num_mant_end(s, i) >= i,
{
    let sgn = num_sgn(s, i);
    lemma_run_len(s, i + sgn, digit_pred());
    let p = num_p(s, i);
    if num_has_frac(s, i) {
        lemma_run_len(s, p + 1, digit_pred());
    }
    let q = num_mant_end(s, i);
    if q < s.len() && (s[q] == 'e' || s[q] == 'E') {
        let es = num_esgn(s, i);
        lemma_run_len(s, q + 1 + es, digit_pred());
    }
}

/// Append the digit values of `s[a..b]` to `ds`.
fn push_digits(ds: &mut Vec<u8>, s: &Vec<char>, a: usize, b: usize)
    requires
        a <= b <= s@.len(),
        forall|k: int| a <= k < b ==> is_digit(#[trigger] s@[k]),
    ensures
        final(ds)@ == old(ds)@ + chars_digits(s@, a as int, b as int),
        final(ds)@.len() == old(ds)@.len() + (b - a),
{
    let mut k: usize = a;
    proof {
        assert(ds@ =~= ds@ + chars_digits(s@, a as int, a as int));
    }
    let ghost ds0 = ds@;
    while k < b
        invariant
            a <= k <= b <= s@.len(),
            forall|m: int| a <= m < b ==> is_digit(#[trigger] s@[m]),
            ds@ == ds0 + chars_digits(s@, a as int, k as int),
        decreases b - k,
    {
        let c = s[k];
        proof {
            assert(is_digit(s@[k as int]));
        }
        ds.push((c as u32 - 48) as u8);
        k = k + 1;
        proof {
            assert(ds@ =~= ds0 + chars_digits(s@, a as int, k as int));
        }
    }
}

/// Scan the numeric literal starting at `i`: the number of characters it
/// spans and its exact decimal value.
#[verifier::rlimit(60)]
pub fn scan_number(s: &Vec<char>, i: usize) -> (r: Option<(usize, Dec)>)
    requires
        i <= s@.len(),
    ensures
        match r {
            Some((l, d)) => {
                &&& spec_scan_number(s@, i as int) == Some((l as int, d@))
                &&& d.wf()
                &&& 1 <= l
                &&& i + l <= s@.len()
            },
            None => spec_scan_number(s@, i as int) is None,
        },
{
    let n = s.len();
    let mut sgn: usize = 0;
    let mut neg = false;
    if i < n && (s[i] == '+' || s[i] == '-') {
        sgn = 1;
        neg = s[i] == '-';
    }
    proof {
        assert(sgn == num_sgn(s@, i as int));
        assert(neg == (i < s@.len() && s@[i as int] == '-'));
    }
    let a = digit_run(s, i + sgn);
    let p = i + sgn + a;
    proof {
        assert(a == num_a(s@, i as int));
        assert(p == num_p(s@, i as int));
    }
    let has_frac = p < n && s[p] == '.' && p + 1 < n && is_digit_c(s[p + 1]);
    proof {
        assert(has_frac == num_has_frac(s@, i as int));
    }
    if a == 0 && !has_frac {
        return None;
    }
    let b: usize = if has_frac {
        digit_run(s, p + 1)
    } else {
        0
    };
    let mant_end: usize = if has_frac {
        p + 1 + b
    } else {
        p
    };
    proof {
        assert(b == num_b(s@, i as int));
        assert(mant_end == num_mant_end(s@, i as int));
        lemma_run_len(s@, (i + sgn) as int, digit_pred());
        if has_frac {
            lemma_run_len(s@, p + 1 as int, digit_pred());
        }
    }
    let mut ds: Vec<u8> = Vec::new();
    push_digits(&mut ds, s, i + sgn, i + sgn + a);
    if has_frac {
        push_digits(&mut ds, s, p + 1, p + 1 + b);
    }
    proof {
        assert(ds@ =~= num_mant_digits(s@, i as int));
    }
    let mut exp_len: usize = 0;
    let mut eval: i128 = 0;
    if mant_end < n && (s[mant_end] == 'e' || s[mant_end] == 'E') {
        let es: usize = if mant_end + 1 < n && (s[mant_end + 1] == '+' || s[mant_end + 1] == '-') {
            1
        } else {
            0
        };
        proof {
            assert(es == num_esgn(s@, i as int));
        }
        let d = digit_run(s, mant_end + 1 + es);
        if d > 0 {
            exp_len = 1 + es + d;
            let start = mant_end + 1 + es;
            let end = start + d;
            proof {
                lemma_run_len(s@, start as int, digit_pred());
                assert(exp_len == num_exp_len(s@, i as int));
                assert(end == num_end(s@, i as int));
            }
            let mut acc: i128 = 0;
            let mut k: usize = start;
            while k < end
                invariant
                    start <= k <= end <= s@.len(),
                    forall|m: int| start <= m < end ==> is_digit(#[trigger] s@[m]),
                    0 <= acc < 10 * EXP_CAP,
                    exp_accum(s@, start as int, end as int, 0) == exp_accum(
                        s@,
                        k as int,
                        end as int,
                        acc as int,
                    ),
                decreases end - k,
            {
                let c = s[k];
                proof {
                    assert(is_digit(s@[k as int]));
                }
                if acc < EXP_CAP {
                    acc = acc * 10 + (c as u32 - 48) as i128;
                }
                k = k + 1;
            }
            proof {
                lemma_exp_accum_bound(s@, start as int, end as int, 0);
                assert(acc == exp_accum(s@, start as int, end as int, 0));
            }
            let eneg = s[mant_end + 1] == '-';
            eval = if eneg {
                -acc
            } else {
                acc
            };
            proof {
                assert(eval as int == num_exp_val(s@, i as int));
            }
        } else {
            proof {
                assert(num_exp_len(s@, i as int) == 0);
                assert(eval as int == num_exp_val(s@, i as int));
            }
        }
    } else {
        proof {
            assert(num_exp_len(s@, i as int) == 0);
            assert(eval as int == num_exp_val(s@, i as int));
        }
    }
    let e_raw: i128 = eval - if has_frac {
        b as i128
    } else {
        0
    };
    proof {
        assert(e_raw as int == num_exp_val(s@, i as int) - num_b(s@, i as int));
        assert(forall|k: int| 0 <= k < ds@.len() ==> #[trigger] ds@[k] <= 9) by {
            assert forall|k: int| 0 <= k < ds@.len() implies #[trigger] ds@[k] <= 9 by {
                let m = num_mant_digits(s@, i as int);
                assert(ds@[k] == m[k]);
            }
        }
    }
    let d = norm(neg, &ds, e_raw);
    let l = mant_end + exp_len - i;
    proof {
        assert(l as int == num_end(s@, i as int) - i);
        assert(d@ == num_value(s@, i as int));
    }
    Some((l, d))
}

} // verus!
