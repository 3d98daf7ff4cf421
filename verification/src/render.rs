//! Rendering `.cycle` action sequences back to text, and the proof that the
//! cycle grammar parses a rendering back to the action sequence it came
//! from.

use vstd::prelude::*;

use crate::num::Dec;
use crate::num::DecV;
use crate::num::EXP_CAP;
use crate::num::wf_decv;
use crate::text::digit_val;
use crate::text::digits_val;
use crate::text::is_digit;
use crate::text::is_ident;
use crate::types::Action;
use crate::types::ActionV;
use crate::types::CycleLine;
use crate::types::Duration;
use crate::types::DurationV;
use crate::types::Sig;
use crate::types::SigV;
use crate::types::sig_views;

verus! {

// ---------------------------------------------------------------------------
// Digit strings for integers
// ---------------------------------------------------------------------------

pub open spec fn digit_char(d: u8) -> char {
    (d + 48) as char
}

/// The characters of a digit-value string.
pub open spec fn digit_chars(ds: Seq<u8>) -> Seq<char> {
    Seq::new(ds.len(), |k: int| digit_char(ds[k]))
}

/// The shortest decimal spelling of a non-negative integer.
pub open spec fn int_chars(n: int) -> Seq<char> {
    if n == 0 {
        seq!['0']
    } else {
        digit_chars(Dec::spec_digits_of(n))
    }
}

// ---------------------------------------------------------------------------
// What can be rendered
// ---------------------------------------------------------------------------

/// Decimals the renderer covers: canonical values whose exponent re-parses
/// exactly.
pub open spec fn renderable_dec(d: DecV) -> bool {
    &&& wf_decv(d)
    &&& -(EXP_CAP as int) <= d.exp <= EXP_CAP as int
}

/// Signals the renderer covers: the shapes the signal grammar itself
/// produces — identifier names, in-range numeric components, and
/// concatenations of at least two single-signal forms.
pub open spec fn renderable_sig(s: SigV) -> bool
    decreases s,
{
    match s {
        SigV::Simple(n) => is_ident(n),
        SigV::Hashed(n, v) => is_ident(n) && 0 <= v <= i32::MAX,
        SigV::Index(n, v) => is_ident(n) && 0 <= v <= i32::MAX,
        SigV::Range(n, a, b) => is_ident(n) && 0 <= a <= i32::MAX && 0 <= b <= i32::MAX,
        SigV::RangeStep(n, a, b, c) => is_ident(n) && 0 <= a <= i32::MAX && 0 <= b <= i32::MAX
            && 0 <= c <= i32::MAX,
        SigV::Quoted(v, w) => 0 <= v <= i32::MAX && 0 <= w <= i32::MAX,
        SigV::Concat(es) => es.len() >= 2 && forall|k: int|
            0 <= k < es.len() ==> !((#[trigger] es[k]) is Concat) && renderable_sig(es[k]),
    }
}

/// Actions the renderer covers.
pub open spec fn renderable_action(a: ActionV) -> bool {
    match a {
        ActionV::Assert(n) => is_ident(n),
        ActionV::Deassert(n) => is_ident(n),
        ActionV::Sample(n) => is_ident(n),
        ActionV::Tran(d) => renderable_duration(d),
        ActionV::SetSignal(s, d) => renderable_sig(s) && renderable_dec(d),
    }
}

pub open spec fn renderable_duration(d: DurationV) -> bool {
    match d {
        DurationV::Micro(x) => renderable_dec(x),
        DurationV::Nano(x) => renderable_dec(x),
        DurationV::Pico(x) => renderable_dec(x),
        DurationV::Fempto(x) => renderable_dec(x),
        DurationV::Atto(x) => renderable_dec(x),
    }
}

// ---------------------------------------------------------------------------
// The renderers
// ---------------------------------------------------------------------------

/// The text of a decimal: sign, mantissa digits (`0` for zero), and an
/// `e`-scaled exponent when the scale is not zero.
pub open spec fn spec_render_dec(d: DecV) -> Seq<char> {
    (if d.neg {
        seq!['-']
    } else {
        Seq::empty()
    }) + (if d.digits.len() == 0 {
        seq!['0']
    } else {
        digit_chars(d.digits)
    }) + (if d.exp == 0 {
        Seq::<char>::empty()
    } else {
        seq!['e'] + (if d.exp < 0 {
            seq!['-']
        } else {
            Seq::<char>::empty()
        }) + int_chars(if d.exp < 0 {
            -d.exp
        } else {
            d.exp
        })
    })
}

/// The text of a signal expression, in the spelling the grammar reads back.
pub open spec fn spec_render_sig(s: SigV) -> Seq<char>
    decreases s,
{
    match s {
        SigV::Simple(n) => n,
        SigV::Hashed(n, v) => n + seq!['#'] + int_chars(v),
        SigV::Index(n, v) => n + seq!['['] + int_chars(v) + seq![']'],
        SigV::Range(n, a, b) => n + seq!['['] + int_chars(a) + seq![':'] + int_chars(b)
            + seq![']'],
        SigV::RangeStep(n, a, b, c) => n + seq!['['] + int_chars(a) + seq![':'] + int_chars(b)
            + seq![':'] + int_chars(c) + seq![']'],
        SigV::Quoted(v, w) => int_chars(v) + seq!['\''] + int_chars(w),
        SigV::Concat(es) => spec_render_concat(es),
    }
}

/// Concatenation elements joined by `", "`.
pub open spec fn spec_render_concat(es: Seq<SigV>) -> Seq<char>
    decreases es,
{
    if es.len() == 0 {
        Seq::empty()
    } else if es.len() == 1 {
        spec_render_sig(es[0])
    } else {
        spec_render_sig(es[0]) + seq![','] + seq![' '] + spec_render_concat(es.drop_first())
    }
}

/// The text of one action.
pub open spec fn spec_render_action(a: ActionV) -> Seq<char> {
    match a {
        ActionV::Assert(n) => "assert "@ + n,
        ActionV::Deassert(n) => "deassert "@ + n,
        ActionV::Sample(n) => "sample "@ + n,
        ActionV::Tran(d) => "tran "@ + spec_render_duration(d),
        ActionV::SetSignal(s, d) => spec_render_sig(s) + seq!['='] + spec_render_dec(d),
    }
}

pub open spec fn spec_render_duration(d: DurationV) -> Seq<char> {
    match d {
        DurationV::Micro(x) => spec_render_dec(x) + seq!['u'],
        DurationV::Nano(x) => spec_render_dec(x) + seq!['n'],
        DurationV::Pico(x) => spec_render_dec(x) + seq!['p'],
        DurationV::Fempto(x) => spec_render_dec(x) + seq!['f'],
        DurationV::Atto(x) => spec_render_dec(x) + seq!['a'],
    }
}

/// The actions, each preceded by one space.
pub open spec fn spec_render_actions(actions: Seq<ActionV>) -> Seq<char>
    decreases actions.len(),
{
    if actions.len() == 0 {
        Seq::empty()
    } else {
        seq![' '] + spec_render_action(actions[0]) + spec_render_actions(actions.drop_first())
    }
}

/// The whole `.cycle` line a sequence of actions renders to.
pub open spec fn spec_render_cycle(actions: Seq<ActionV>) -> Seq<char> {
    ".cycle"@ + spec_render_actions(actions)
}

// ---------------------------------------------------------------------------
// Digit strings round-trip
// ---------------------------------------------------------------------------

/// The value of a digit-value string, base ten.
pub open spec fn dval(ds: Seq<u8>) -> int
    decreases ds.len(),
{
    if ds.len() == 0 {
        0
    } else {
        dval(ds.drop_last()) * 10 + ds.last()
    }
}

/// Rendering digits to characters keeps their value.
pub proof fn lemma_digit_chars_val(ds: Seq<u8>)
    requires
        forall|k: int| 0 <= k < ds.len() ==> #[trigger] ds[k] <= 9,
    ensures
        digit_chars(ds).len() == ds.len(),
        forall|k: int| 0 <= k < ds.len() ==> is_digit(#[trigger] digit_chars(ds)[k]),
        forall|k: int|
            0 <= k < ds.len() ==> digit_val(#[trigger] digit_chars(ds)[k]) == ds[k],
        digits_val(digit_chars(ds)) == dval(ds),
    decreases ds.len(),
{
    if ds.len() > 0 {
        lemma_digit_chars_val(ds.drop_last());
        assert(digit_chars(ds).drop_last() =~= digit_chars(ds.drop_last()));
        assert(digit_chars(ds).last() == digit_char(ds.last()));
        assert(digit_val(digit_char(ds.last())) == ds.last());
    }
}

/// The digit string of `n` denotes `n`, digit by digit.
pub proof fn lemma_digits_of_val(n: int)
    requires
        n >= 0,
    ensures
        forall|k: int|
            0 <= k < Dec::spec_digits_of(n).len() ==> #[trigger] Dec::spec_digits_of(n)[k] <= 9,
        dval(Dec::spec_digits_of(n)) == n,
        n > 0 ==> Dec::spec_digits_of(n).len() >= 1 && Dec::spec_digits_of(n)[0] != 0,
    decreases n,
{
    if n > 0 {
        lemma_digits_of_val(n / 10);
        let ds = Dec::spec_digits_of(n);
        assert(ds == Dec::spec_digits_of(n / 10).push((n % 10) as u8));
        assert(ds.drop_last() =~= Dec::spec_digits_of(n / 10));
        assert(ds.last() == (n % 10) as u8);
        if n / 10 > 0 {
            assert(ds[0] == Dec::spec_digits_of(n / 10)[0]);
        }
    }
}

/// The decimal spelling of `n` is a digit string denoting `n`.
pub proof fn lemma_int_chars(n: int)
    requires
        0 <= n,
    ensures
        int_chars(n).len() >= 1,
        forall|k: int| 0 <= k < int_chars(n).len() ==> is_digit(#[trigger] int_chars(n)[k]),
        digits_val(int_chars(n)) == n,
{
    if n == 0 {
        assert(int_chars(0) =~= seq!['0']);
        assert(digits_val(seq!['0']) == digits_val(seq!['0'].drop_last()) * 10 + digit_val('0'));
        assert(seq!['0'].drop_last() =~= Seq::<char>::empty());
    } else {
        lemma_digits_of_val(n);
        lemma_digit_chars_val(Dec::spec_digits_of(n));
    }
}

/// Plain left-to-right decimal accumulation, with no cap.
pub open spec fn nfold(s: Seq<char>, lo: int, hi: int, acc: int) -> int
    decreases hi - lo when lo <= hi
{
    if lo >= hi {
        acc
    } else {
        nfold(s, lo + 1, hi, acc * 10 + digit_val(s[lo]))
    }
}

pub proof fn lemma_nfold_mono(s: Seq<char>, lo: int, hi: int, acc: int)
    requires
        lo <= hi <= s.len(),
        0 <= lo,
        0 <= acc,
        forall|k: int| lo <= k < hi ==> is_digit(#[trigger] s[k]),
    ensures
        nfold(s, lo, hi, acc) >= acc,
        nfold(s, lo, hi, acc) >= 0,
    decreases hi - lo,
{
    if lo < hi {
        assert(is_digit(s[lo]));
        lemma_nfold_mono(s, lo + 1, hi, acc * 10 + digit_val(s[lo]));
    }
}

pub proof fn lemma_nfold_snoc(s: Seq<char>, lo: int, hi: int, acc: int)
    requires
        0 <= lo < hi <= s.len(),
    ensures
        nfold(s, lo, hi, acc) == nfold(s, lo, hi - 1, acc) * 10 + digit_val(s[hi - 1]),
    decreases hi - lo,
{
    if lo + 1 == hi {
        assert(nfold(s, lo, hi, acc) == nfold(s, lo + 1, hi, acc * 10 + digit_val(s[lo])));
        assert(nfold(s, lo + 1, hi, acc * 10 + digit_val(s[lo])) == acc * 10 + digit_val(s[lo]));
        assert(nfold(s, lo, hi - 1, acc) == acc);
    } else {
        lemma_nfold_snoc(s, lo + 1, hi, acc * 10 + digit_val(s[lo]));
    }
}

pub proof fn lemma_nfold_digits_val(s: Seq<char>, lo: int, hi: int)
    requires
        0 <= lo <= hi <= s.len(),
    ensures
        nfold(s, lo, hi, 0) == digits_val(s.subrange(lo, hi)),
    decreases hi - lo,
{
    if lo < hi {
        lemma_nfold_snoc(s, lo, hi, 0);
        lemma_nfold_digits_val(s, lo, hi - 1);
        let t = s.subrange(lo, hi);
        assert(t.drop_last() =~= s.subrange(lo, hi - 1));
        assert(t.last() == s[hi - 1]);
    }
}

/// A character that cannot extend a numeric literal.
pub open spec fn num_stopper(c: char) -> bool {
    !is_digit(c) && c != '.' && c != 'e' && c != 'E'
}

/// Scanning a rendered decimal reads back exactly the decimal, stopping at
/// its end, whenever the character after it (if any) cannot extend a
/// literal.
#[verifier::rlimit(100)]
pub proof fn lemma_scan_render_dec_at(s: Seq<char>, i: int, d: DecV)
    requires
        renderable_dec(d),
        0 <= i,
        i + spec_render_dec(d).len() <= s.len(),
        s.subrange(i, i + spec_render_dec(d).len()) == spec_render_dec(d),
        i + spec_render_dec(d).len() < s.len() ==> num_stopper(
            s[i + spec_render_dec(d).len()],
        ),
    ensures
        crate::num::num_matches(s, i),
        crate::num::num_end(s, i) == i + spec_render_dec(d).len(),
        crate::num::num_value(s, i) == d,
{
    let r = spec_render_dec(d);
    let rlen = r.len() as int;
    assert forall|t: int| i <= t < i + rlen implies #[trigger] s[t] == r[t - i] by {
        assert(r[t - i] == s.subrange(i, i + rlen)[t - i]);
    }
    let sgn = if d.neg {
        1int
    } else {
        0int
    };
    let mant = if d.digits.len() == 0 {
        seq!['0']
    } else {
        digit_chars(d.digits)
    };
    let ml = mant.len() as int;
    let epart = if d.exp == 0 {
        Seq::<char>::empty()
    } else {
        seq!['e'] + (if d.exp < 0 {
            seq!['-']
        } else {
            Seq::<char>::empty()
        }) + int_chars(if d.exp < 0 {
            -d.exp
        } else {
            d.exp
        })
    };
    let ea = if d.exp < 0 {
        -d.exp
    } else {
        d.exp
    };
    let echars = int_chars(ea);
    let elen = echars.len() as int;
    let es = if d.exp < 0 {
        1int
    } else {
        0int
    };
    lemma_int_chars(ea);
    lemma_digit_chars_val(d.digits);
    assert(is_digit('0'));
    assert(forall|k: int| 0 <= k < ml ==> is_digit(#[trigger] mant[k]));
    // where each region of the render sits
    assert(rlen == sgn + ml + epart.len());
    assert forall|k: int| 0 <= k < ml implies r[sgn + k] == mant[k] by {}
    if d.neg {
        assert(r[0] == '-');
    }
    if d.exp != 0 {
        assert(epart.len() == 1 + es + elen);
        assert(r[sgn + ml] == 'e');
        if d.exp < 0 {
            assert(r[sgn + ml + 1] == '-');
        }
        assert forall|k: int| 0 <= k < elen implies r[sgn + ml + 1 + es + k] == echars[k] by {}
    }
    // the sign
    assert(crate::num::num_sgn(s, i) == sgn) by {
        if d.neg {
            assert(s[i] == '-');
        } else {
            assert(is_digit(mant[0]));
            assert(s[i] == mant[0]);
        }
    }
    // the integer-digit run
    assert(crate::num::num_a(s, i) == ml) by {
        assert forall|k: int| i + sgn <= k < i + sgn + ml implies is_digit(#[trigger] s[k]) by {
            assert(s[k] == r[k - i]);
            assert(r[k - i] == mant[k - i - sgn]);
            assert(is_digit(mant[k - i - sgn]));
        }
        if i + sgn + ml < s.len() {
            if d.exp != 0 {
                assert(s[i + sgn + ml] == 'e');
            } else {
                assert(num_stopper(s[i + sgn + ml]));
            }
            assert(!is_digit(s[i + sgn + ml]));
        }
        crate::text::lemma_run_len_unique(
            s,
            i + sgn,
            crate::text::digit_pred(),
            i + sgn + ml,
        );
    }
    let p = i + sgn + ml;
    assert(crate::num::num_p(s, i) == p);
    // no fractional part
    assert(!crate::num::num_has_frac(s, i)) by {
        if p + 1 < s.len() {
            if d.exp != 0 {
                assert(s[p] == 'e');
            } else if p < s.len() {
                assert(num_stopper(s[p]));
            }
        }
    }
    assert(crate::num::num_b(s, i) == 0);
    assert(crate::num::num_mant_end(s, i) == p);
    assert(crate::num::num_matches(s, i));
    // the exponent part
    if d.exp == 0 {
        assert(crate::num::num_exp_len(s, i) == 0) by {
            if p < s.len() {
                assert(num_stopper(s[p]));
            }
        }
        assert(crate::num::num_end(s, i) == p);
        assert(crate::num::num_exp_val(s, i) == 0);
    } else {
        assert(s[p] == 'e');
        assert(crate::num::num_esgn(s, i) == es) by {
            if d.exp < 0 {
                assert(s[p + 1] == '-');
            } else {
                assert(s[p + 1] == echars[0]);
                assert(is_digit(echars[0]));
            }
        }
        assert(crate::text::run_len(s, p + 1 + es, crate::text::digit_pred()) == elen) by {
            assert forall|k: int| p + 1 + es <= k < p + 1 + es + elen implies is_digit(
                #[trigger] s[k],
            ) by {
                assert(s[k] == r[k - i]);
                assert(r[k - i] == epart[k - i - sgn - ml]);
                assert(epart[k - i - sgn - ml] == echars[k - i - sgn - ml - 1 - es]);
                assert(is_digit(echars[k - i - sgn - ml - 1 - es]));
            }
            if p + 1 + es + elen < s.len() {
                assert(num_stopper(s[p + 1 + es + elen]));
            }
            crate::text::lemma_run_len_unique(
                s,
                p + 1 + es,
                crate::text::digit_pred(),
                p + 1 + es + elen,
            );
        }
        assert(crate::num::num_exp_len(s, i) == 1 + es + elen);
        assert(crate::num::num_end(s, i) == i + rlen);
        // its value
        assert(crate::num::num_exp_val(s, i) == d.exp) by {
            let lo = p + 1 + es;
            let hi = p + 1 + es + elen;
            assert(s.subrange(lo, hi) =~= echars);
            lemma_nfold_digits_val(s, lo, hi);
            assert(nfold(s, lo, hi, 0) == digits_val(echars));
            assert(digits_val(echars) == ea);
            lemma_exp_accum_nfold(s, lo, hi, 0);
            assert(crate::num::exp_accum(s, lo, hi, 0) == ea);
            if d.exp < 0 {
                assert(s[p + 1] == '-');
            }
        }
    }
    assert(crate::num::num_end(s, i) == i + rlen);
    // the mantissa digits and the canonical value
    let md = crate::num::num_mant_digits(s, i);
    assert(md =~= crate::num::chars_digits(s, i + sgn, i + sgn + ml));
    if d.digits.len() == 0 {
        assert(md =~= seq![0u8]) by {
            assert(md.len() == 1);
            assert(md[0] == digit_val(s[i + sgn]) as u8);
            assert(s[i + sgn] == '0');
        }
        assert(crate::num::num_value(s, i) == crate::num::norm_dec(false, seq![0u8], 0)) by {
            assert(!d.neg);
            assert(d.exp == 0);
            assert(i < s.len());
            assert(s[i] == '0');
        }
        crate::num::lemma_zrun(seq![0u8], 0);
        assert(crate::num::zrun(seq![0u8], 0) == 1) by {
            crate::num::lemma_zrun_unique(seq![0u8], 0, 1);
        }
        assert(crate::num::num_value(s, i).digits =~= d.digits);
        assert(crate::num::num_value(s, i) == d);
    } else {
        assert(md =~= d.digits) by {
            assert forall|k: int| 0 <= k < ml implies md[k] == d.digits[k] by {
                assert(md[k] == digit_val(s[i + sgn + k]) as u8);
                assert(s[i + sgn + k] == mant[k]);
                assert(digit_val(digit_chars(d.digits)[k]) == d.digits[k]);
            }
        }
        assert(crate::num::num_value(s, i) == crate::num::norm_dec(d.neg, d.digits, d.exp)) by {
            assert((i < s.len() && s[i] == '-') == d.neg) by {
                if !d.neg {
                    assert(s[i] == mant[0]);
                    assert(is_digit(mant[0]));
                }
            }
        }
        assert(crate::num::norm_dec(d.neg, d.digits, d.exp) == d) by {
            crate::num::lemma_zrun_unique(d.digits, 0, 0);
            crate::num::lemma_zrun_back_unique(d.digits, d.digits.len() as int, d.digits.len() as int);
            assert(crate::num::clamp_exp(d.exp + 0) == d.exp);
            assert(crate::num::norm_dec(d.neg, d.digits, d.exp).digits =~= d.digits);
        }
    }
}

// ---------------------------------------------------------------------------
// Character facts about renders
// ---------------------------------------------------------------------------

/// Characters a single-signal render is built from: identifier characters
/// and the grammar's own punctuation.
pub open spec fn is_sig_char(c: char) -> bool {
    crate::text::is_ident_char(c) || c == '#' || c == '[' || c == ']' || c == ':' || c == '\''
}

/// A rendered single-signal form is non-empty and contains only signal
/// characters — in particular no comma, space or equals sign.
pub proof fn lemma_render_sig_chars(s: SigV)
    requires
        renderable_sig(s),
        !(s is Concat),
    ensures
        spec_render_sig(s).len() >= 1,
        forall|k: int|
            0 <= k < spec_render_sig(s).len() ==> is_sig_char(#[trigger] spec_render_sig(s)[k]),
{
    let r = spec_render_sig(s);
    match s {
        SigV::Simple(n) => {
            assert forall|k: int| 0 <= k < r.len() implies is_sig_char(#[trigger] r[k]) by {
                assert(crate::text::is_ident_char(n[k]));
            }
        },
        SigV::Hashed(n, v) => {
            lemma_int_chars(v);
            assert forall|k: int| 0 <= k < r.len() implies is_sig_char(#[trigger] r[k]) by {
                if k < n.len() {
                    assert(r[k] == n[k]);
                    assert(crate::text::is_ident_char(n[k]));
                } else if k == n.len() {
                    assert(r[k] == '#');
                } else {
                    assert(r[k] == int_chars(v)[k - n.len() - 1]);
                    assert(is_digit(int_chars(v)[k - n.len() - 1]));
                }
            }
        },
        SigV::Index(n, v) => {
            lemma_int_chars(v);
            assert forall|k: int| 0 <= k < r.len() implies is_sig_char(#[trigger] r[k]) by {
                if k < n.len() {
                    assert(r[k] == n[k]);
                    assert(crate::text::is_ident_char(n[k]));
                } else if k == n.len() {
                    assert(r[k] == '[');
                } else if k == r.len() - 1 {
                    assert(r[k] == ']');
                } else {
                    assert(r[k] == int_chars(v)[k - n.len() - 1]);
                    assert(is_digit(int_chars(v)[k - n.len() - 1]));
                }
            }
        },
        SigV::Range(n, a, b) => {
            lemma_int_chars(a);
            lemma_int_chars(b);
            let al = int_chars(a).len() as int;
            let bl = int_chars(b).len() as int;
            assert forall|k: int| 0 <= k < r.len() implies is_sig_char(#[trigger] r[k]) by {
                if k < n.len() {
                    assert(r[k] == n[k]);
                    assert(crate::text::is_ident_char(n[k]));
                } else if k == n.len() {
                    assert(r[k] == '[');
                } else if k < n.len() + 1 + al {
                    assert(r[k] == int_chars(a)[k - n.len() - 1]);
                    assert(is_digit(int_chars(a)[k - n.len() - 1]));
                } else if k == n.len() + 1 + al {
                    assert(r[k] == ':');
                } else if k < n.len() + 2 + al + bl {
                    assert(r[k] == int_chars(b)[k - n.len() - 2 - al]);
                    assert(is_digit(int_chars(b)[k - n.len() - 2 - al]));
                } else {
                    assert(r[k] == ']');
                }
            }
        },
        SigV::RangeStep(n, a, b, c) => {
            lemma_int_chars(a);
            lemma_int_chars(b);
            lemma_int_chars(c);
            let al = int_chars(a).len() as int;
            let bl = int_chars(b).len() as int;
            let cl = int_chars(c).len() as int;
            assert forall|k: int| 0 <= k < r.len() implies is_sig_char(#[trigger] r[k]) by {
                if k < n.len() {
                    assert(r[k] == n[k]);
                    assert(crate::text::is_ident_char(n[k]));
                } else if k == n.len() {
                    assert(r[k] == '[');
                } else if k < n.len() + 1 + al {
                    assert(r[k] == int_chars(a)[k - n.len() - 1]);
                    assert(is_digit(int_chars(a)[k - n.len() - 1]));
                } else if k == n.len() + 1 + al {
                    assert(r[k] == ':');
                } else if k < n.len() + 2 + al + bl {
                    assert(r[k] == int_chars(b)[k - n.len() - 2 - al]);
                    assert(is_digit(int_chars(b)[k - n.len() - 2 - al]));
                } else if k == n.len() + 2 + al + bl {
                    assert(r[k] == ':');
                } else if k < n.len() + 3 + al + bl + cl {
                    assert(r[k] == int_chars(c)[k - n.len() - 3 - al - bl]);
                    assert(is_digit(int_chars(c)[k - n.len() - 3 - al - bl]));
                } else {
                    assert(r[k] == ']');
                }
            }
        },
        SigV::Quoted(v, w) => {
            lemma_int_chars(v);
            lemma_int_chars(w);
            let vl = int_chars(v).len() as int;
            assert forall|k: int| 0 <= k < r.len() implies is_sig_char(#[trigger] r[k]) by {
                if k < vl {
                    assert(r[k] == int_chars(v)[k]);
                    assert(is_digit(int_chars(v)[k]));
                } else if k == vl {
                    assert(r[k] == '\'');
                } else {
                    assert(r[k] == int_chars(w)[k - vl - 1]);
                    assert(is_digit(int_chars(w)[k - vl - 1]));
                }
            }
        },
        SigV::Concat(es) => {},
    }
}

/// A rendered signal — concatenations included — is non-empty, free of `=`,
/// starts and ends with a signal character, and holds a space only right
/// after a comma.
pub proof fn lemma_render_sig_shape(s: SigV)
    requires
        renderable_sig(s),
    ensures
        spec_render_sig(s).len() >= 1,
        is_sig_char(spec_render_sig(s)[0]),
        is_sig_char(spec_render_sig(s)[spec_render_sig(s).len() - 1]),
        forall|k: int|
            0 <= k < spec_render_sig(s).len() ==> #[trigger] spec_render_sig(s)[k] != '=',
        forall|k: int|
            0 <= k < spec_render_sig(s).len() && crate::text::is_space(
                #[trigger] spec_render_sig(s)[k],
            ) ==> k > 0 && spec_render_sig(s)[k - 1] == ',',
    decreases s,
{
    if !(s is Concat) {
        lemma_render_sig_chars(s);
        let r = spec_render_sig(s);
        assert forall|k: int| 0 <= k < r.len() implies #[trigger] r[k] != '=' && !(
        crate::text::is_space(r[k])) by {
            assert(is_sig_char(r[k]));
        }
    } else {
        let es = s->Concat_0;
        lemma_render_concat_shape(es);
        assert(spec_render_sig(s) == spec_render_concat(es));
    }
}

/// The same shape facts for a rendered concatenation tail.
pub proof fn lemma_render_concat_shape(es: Seq<SigV>)
    requires
        es.len() >= 1,
        forall|k: int|
            0 <= k < es.len() ==> !((#[trigger] es[k]) is Concat) && renderable_sig(es[k]),
    ensures
        spec_render_concat(es).len() >= 1,
        is_sig_char(spec_render_concat(es)[0]),
        is_sig_char(spec_render_concat(es)[spec_render_concat(es).len() - 1]),
        forall|k: int|
            0 <= k < spec_render_concat(es).len() ==> #[trigger] spec_render_concat(es)[k] != '=',
        forall|k: int|
            0 <= k < spec_render_concat(es).len() && crate::text::is_space(
                #[trigger] spec_render_concat(es)[k],
            ) ==> k > 0 && spec_render_concat(es)[k - 1] == ',',
    decreases es.len(),
{
    let r = spec_render_concat(es);
    assert(!(es[0] is Concat) && renderable_sig(es[0]));
    lemma_render_sig_chars(es[0]);
    let r0 = spec_render_sig(es[0]);
    if es.len() == 1 {
        assert(r == r0);
        assert forall|k: int| 0 <= k < r.len() implies #[trigger] r[k] != '=' && !(
        crate::text::is_space(r[k])) by {
            assert(is_sig_char(r[k]));
        }
    } else {
        lemma_render_concat_shape(es.drop_first());
        let rt = spec_render_concat(es.drop_first());
        assert(r == r0 + seq![','] + seq![' '] + rt);
        assert(r.len() == r0.len() + 2 + rt.len());
        assert(r[0] == r0[0]);
        assert(r[r.len() - 1] == rt[rt.len() - 1]);
        assert forall|k: int| 0 <= k < r.len() implies #[trigger] r[k] != '=' by {
            if k < r0.len() {
                assert(r[k] == r0[k]);
                assert(is_sig_char(r0[k]));
            } else if k == r0.len() {
                assert(r[k] == ',');
            } else if k == r0.len() + 1 {
                assert(r[k] == ' ');
            } else {
                assert(r[k] == rt[k - r0.len() - 2]);
            }
        }
        assert forall|k: int|
            0 <= k < r.len() && crate::text::is_space(#[trigger] r[k]) implies k > 0 && r[k - 1]
            == ',' by {
            if k < r0.len() {
                assert(r[k] == r0[k]);
                assert(is_sig_char(r0[k]));
                assert(!crate::text::is_space(r0[k]));
                assert(false);
            } else if k == r0.len() {
                assert(r[k] == ',');
                assert(false);
            } else if k == r0.len() + 1 {
                assert(r[k - 1] == ',');
            } else {
                assert(r[k] == rt[k - r0.len() - 2]);
                assert(k - r0.len() - 2 > 0);
                assert(rt[k - r0.len() - 3] == ',');
                assert(r[k - 1] == rt[k - r0.len() - 3]);
            }
        }
    }
}

/// Decimal digit strings have the same value under both value functions.
pub proof fn lemma_radix_digits(s: Seq<char>)
    requires
        forall|k: int| 0 <= k < s.len() ==> is_digit(#[trigger] s[k]),
    ensures
        crate::text::radix_val(s, 10) == digits_val(s),
    decreases s.len(),
{
    if s.len() > 0 {
        assert(is_digit(s.last()));
        lemma_radix_digits(s.drop_last());
    }
}

/// Parsing the rendering of a single-signal form gives the form back, under
/// the first grammar alternative that can accept it.
#[verifier::rlimit(100)]
pub proof fn lemma_one_of_render(s: SigV)
    requires
        renderable_sig(s),
        !(s is Concat),
    ensures
        crate::sig::spec_one_of_sig(spec_render_sig(s)) == Option::Some(s),
{
    let r = spec_render_sig(s);
    lemma_render_sig_chars(s);
    match s {
        SigV::Simple(n) => {
            assert(crate::sig::spec_sig_simple(r) == Option::Some(s));
        },
        SigV::Hashed(n, v) => {
            lemma_int_chars(v);
            let hl = n.len() as int;
            let ic = int_chars(v);
            assert(r.len() == hl + 1 + ic.len());
            assert(r[hl] == '#');
            assert(!crate::text::is_ident_char('#'));
            assert(crate::sig::spec_sig_simple(r) is None) by {
                assert(!is_ident(r));
            }
            assert(crate::text::find_char(r, '#') == hl) by {
                assert forall|k: int| 0 <= k < hl implies r[k] != '#' by {
                    assert(r[k] == n[k]);
                    assert(crate::text::is_ident_char(n[k]));
                }
                crate::text::lemma_find_from_unique(r, 0, '#', hl);
            }
            assert(r.subrange(0, hl) =~= n);
            assert(r.subrange(hl + 1, r.len() as int) =~= ic);
            assert(crate::text::is_digits(ic));
            assert(crate::sig::spec_sig_hash(r) == Option::Some(s));
        },
        SigV::Index(n, v) => {
            lemma_int_chars(v);
            let nl = n.len() as int;
            let ic = int_chars(v);
            assert(r.len() == nl + 2 + ic.len());
            assert(r[nl] == '[');
            assert(r[r.len() - 1] == ']');
            lemma_sig_simple_hash_fail(r, nl);
            assert(crate::sig::spec_bracket(r) == Option::Some(
                (n, r.subrange(nl + 1, r.len() - 1)),
            )) by {
                assert forall|k: int| 0 <= k < nl implies r[k] != '[' by {
                    assert(r[k] == n[k]);
                    assert(crate::text::is_ident_char(n[k]));
                }
                crate::text::lemma_find_from_unique(r, 0, '[', nl);
                assert(r.subrange(0, nl) =~= n);
            }
            let inner = r.subrange(nl + 1, r.len() - 1);
            assert(inner =~= ic);
            assert(crate::text::is_digits(inner));
            assert(crate::text::find_char(inner, ':') == inner.len()) by {
                assert forall|k: int| 0 <= k < inner.len() implies inner[k] != ':' by {
                    assert(is_digit(inner[k]));
                }
                crate::text::lemma_find_from_unique(inner, 0, ':', inner.len() as int);
            }
            assert(crate::sig::spec_sig_range(r) is None);
            assert(crate::sig::spec_sig_range_step(r) is None);
            assert(crate::sig::spec_sig_index(r) == Option::Some(s));
        },
        SigV::Range(n, a, b) => {
            lemma_int_chars(a);
            lemma_int_chars(b);
            let nl = n.len() as int;
            let ia = int_chars(a);
            let ib = int_chars(b);
            assert(r.len() == nl + 3 + ia.len() + ib.len());
            assert(r[nl] == '[');
            assert(r[r.len() - 1] == ']');
            lemma_sig_simple_hash_fail(r, nl);
            assert(crate::sig::spec_bracket(r) == Option::Some(
                (n, r.subrange(nl + 1, r.len() - 1)),
            )) by {
                assert forall|k: int| 0 <= k < nl implies r[k] != '[' by {
                    assert(r[k] == n[k]);
                    assert(crate::text::is_ident_char(n[k]));
                }
                crate::text::lemma_find_from_unique(r, 0, '[', nl);
                assert(r.subrange(0, nl) =~= n);
            }
            let inner = r.subrange(nl + 1, r.len() - 1);
            assert(inner =~= ia + seq![':'] + ib);
            let al = ia.len() as int;
            assert(crate::text::find_char(inner, ':') == al) by {
                assert forall|k: int| 0 <= k < al implies inner[k] != ':' by {
                    assert(inner[k] == ia[k]);
                    assert(is_digit(ia[k]));
                }
                assert(inner[al] == ':');
                crate::text::lemma_find_from_unique(inner, 0, ':', al);
            }
            assert(inner.subrange(0, al) =~= ia);
            assert(inner.subrange(al + 1, inner.len() as int) =~= ib);
            assert(crate::text::is_digits(ia));
            assert(crate::text::is_digits(ib));
            assert(crate::sig::spec_sig_range(r) == Option::Some(s));
        },
        SigV::RangeStep(n, a, b, c) => {
            lemma_int_chars(a);
            lemma_int_chars(b);
            lemma_int_chars(c);
            let nl = n.len() as int;
            let ia = int_chars(a);
            let ib = int_chars(b);
            let icc = int_chars(c);
            assert(r.len() == nl + 4 + ia.len() + ib.len() + icc.len());
            assert(r[nl] == '[');
            assert(r[r.len() - 1] == ']');
            lemma_sig_simple_hash_fail(r, nl);
            assert(crate::sig::spec_bracket(r) == Option::Some(
                (n, r.subrange(nl + 1, r.len() - 1)),
            )) by {
                assert forall|k: int| 0 <= k < nl implies r[k] != '[' by {
                    assert(r[k] == n[k]);
                    assert(crate::text::is_ident_char(n[k]));
                }
                crate::text::lemma_find_from_unique(r, 0, '[', nl);
                assert(r.subrange(0, nl) =~= n);
            }
            let inner = r.subrange(nl + 1, r.len() - 1);
            assert(inner =~= ia + seq![':'] + ib + seq![':'] + icc);
            let al = ia.len() as int;
            let bl = ib.len() as int;
            assert(crate::text::find_char(inner, ':') == al) by {
                assert forall|k: int| 0 <= k < al implies inner[k] != ':' by {
                    assert(inner[k] == ia[k]);
                    assert(is_digit(ia[k]));
                }
                assert(inner[al] == ':');
                crate::text::lemma_find_from_unique(inner, 0, ':', al);
            }
            // the plain range alternative rejects the second colon
            assert(crate::sig::spec_sig_range(r) is None) by {
                let bpart = inner.subrange(al + 1, inner.len() as int);
                assert(bpart[bl] == inner[al + 1 + bl]);
                assert(inner[al + 1 + bl] == ':');
                assert(!is_digit(':'));
                assert(!crate::text::is_digits(bpart));
            }
            assert(crate::text::find_from(inner, al + 1, ':') == al + 1 + bl) by {
                assert forall|k: int| al + 1 <= k < al + 1 + bl implies inner[k] != ':' by {
                    assert(inner[k] == ib[k - al - 1]);
                    assert(is_digit(ib[k - al - 1]));
                }
                assert(inner[al + 1 + bl] == ':');
                crate::text::lemma_find_from_unique(inner, al + 1, ':', al + 1 + bl);
            }
            assert(inner.subrange(0, al) =~= ia);
            assert(inner.subrange(al + 1, al + 1 + bl) =~= ib);
            assert(inner.subrange(al + 1 + bl + 1, inner.len() as int) =~= icc);
            assert(crate::text::is_digits(ia));
            assert(crate::text::is_digits(ib));
            assert(crate::text::is_digits(icc));
            assert(crate::sig::spec_sig_range_step(r) == Option::Some(s));
        },
        SigV::Quoted(v, w) => {
            lemma_int_chars(v);
            lemma_int_chars(w);
            let iv = int_chars(v);
            let iw = int_chars(w);
            let vl = iv.len() as int;
            let wl = iw.len() as int;
            assert(r.len() == vl + 1 + wl);
            assert(r[vl] == '\'');
            assert(!crate::text::is_ident_char('\''));
            assert(crate::sig::spec_sig_simple(r) is None) by {
                assert(!is_ident(r));
            }
            assert(crate::text::find_char(r, '#') == r.len()) by {
                assert forall|k: int| 0 <= k < r.len() implies r[k] != '#' by {
                    if k < vl {
                        assert(r[k] == iv[k]);
                        assert(is_digit(iv[k]));
                    } else if k == vl {
                    } else {
                        assert(r[k] == iw[k - vl - 1]);
                        assert(is_digit(iw[k - vl - 1]));
                    }
                }
                crate::text::lemma_find_from_unique(r, 0, '#', r.len() as int);
            }
            assert(crate::sig::spec_sig_hash(r) is None);
            assert(crate::text::find_char(r, '[') == r.len()) by {
                assert forall|k: int| 0 <= k < r.len() implies r[k] != '[' by {
                    if k < vl {
                        assert(r[k] == iv[k]);
                        assert(is_digit(iv[k]));
                    } else if k == vl {
                    } else {
                        assert(r[k] == iw[k - vl - 1]);
                        assert(is_digit(iw[k - vl - 1]));
                    }
                }
                crate::text::lemma_find_from_unique(r, 0, '[', r.len() as int);
            }
            assert(crate::sig::spec_bracket(r) is None);
            assert(crate::sig::spec_sig_range(r) is None);
            assert(crate::sig::spec_sig_range_step(r) is None);
            assert(crate::sig::spec_sig_index(r) is None);
            assert(crate::text::find_char(r, '\'') == vl) by {
                assert forall|k: int| 0 <= k < vl implies r[k] != '\'' by {
                    assert(r[k] == iv[k]);
                    assert(is_digit(iv[k]));
                }
                crate::text::lemma_find_from_unique(r, 0, '\'', vl);
            }
            assert(r.subrange(vl + 1, r.len() as int) =~= iw);
            assert(crate::text::is_digits(iw));
            assert(digits_val(iw) == w);
            assert(crate::sig::spec_quote_split(r) == Option::Some((r.subrange(0, vl), w)));
            assert(r.subrange(0, vl) =~= iv);
            assert(crate::text::is_digits(iv));
            lemma_radix_digits(iv);
            assert(crate::text::radix_val(iv, 10) == v);
            assert(crate::sig::spec_quote_implicit(r) == Option::Some(s));
            assert(crate::sig::spec_sig_quote(r) == Option::Some(s));
        },
        SigV::Concat(es) => {},
    }
}

/// The simple and hash alternatives reject any render whose character at
/// `nl` is `[` with only identifier characters before it.
proof fn lemma_sig_simple_hash_fail(r: Seq<char>, nl: int)
    requires
        0 <= nl < r.len(),
        r[nl] == '[',
        forall|k: int| 0 <= k < nl ==> crate::text::is_ident_char(#[trigger] r[k]),
        forall|k: int| 0 <= k < r.len() ==> is_sig_char(#[trigger] r[k]),
    ensures
        crate::sig::spec_sig_simple(r) is None,
        crate::sig::spec_sig_hash(r) is None,
{
    assert(!crate::text::is_ident_char('['));
    assert(!is_ident(r));
    let h = crate::text::find_char(r, '#');
    crate::text::lemma_find_from(r, 0, '#');
    if h < r.len() {
        assert(r[h] == '#');
        assert(nl < h) by {
            if h < nl {
                assert(crate::text::is_ident_char(r[h]));
            }
            assert(h != nl);
        }
        // the name part contains the bracket, so it is no identifier
        assert(r.subrange(0, h)[nl] == r[nl]);
        assert(!is_ident(r.subrange(0, h)));
    }
}

/// Trimming strips exactly an optional leading space from text that starts
/// and ends with non-space characters.
pub proof fn lemma_trim_pre(x: Seq<char>, sp: bool)
    requires
        x.len() >= 1,
        !crate::text::is_space(x[0]),
        !crate::text::is_space(x[x.len() - 1]),
    ensures
        crate::text::trim(
            (if sp {
                seq![' ']
            } else {
                Seq::<char>::empty()
            }) + x,
        ) == x,
{
    let pre = if sp {
        seq![' ']
    } else {
        Seq::<char>::empty()
    };
    let t = pre + x;
    let pl = pre.len() as int;
    assert(crate::text::is_space(' '));
    assert forall|k: int| 0 <= k < pl implies crate::text::is_space(t[k]) by {
        assert(t[k] == ' ');
    }
    assert(t[pl] == x[0]);
    crate::text::lemma_run_len_unique(t, 0, crate::text::space_pred(), pl);
    assert(crate::text::lead_spaces(t) == pl);
    assert(t[t.len() - 1] == x[x.len() - 1]);
    crate::text::lemma_back_spaces_unique(t, t.len() as int, t.len() as int);
    assert(crate::text::back_spaces(t, t.len() as int) == 0);
    assert(t.subrange(pl, t.len() as int) =~= x);
}

/// No single-signal alternative accepts a rendered concatenation: the
/// `", "` separator poisons every one of them.
#[verifier::rlimit(100)]
pub proof fn lemma_one_of_fails_concat(es: Seq<SigV>)
    requires
        es.len() >= 2,
        forall|k: int|
            0 <= k < es.len() ==> !((#[trigger] es[k]) is Concat) && renderable_sig(es[k]),
    ensures
        crate::sig::spec_one_of_sig(spec_render_concat(es)) is None,
{
    let r = spec_render_concat(es);
    lemma_render_concat_shape(es);
    assert(!(es[0] is Concat) && renderable_sig(es[0]));
    lemma_render_sig_chars(es[0]);
    let r0 = spec_render_sig(es[0]);
    let tail = spec_render_concat(es.drop_first());
    lemma_render_concat_shape(es.drop_first());
    assert(r == r0 + seq![','] + seq![' '] + tail);
    let c = r0.len() as int;
    assert(r[c] == ',');
    assert(r[c + 1] == ' ');
    assert(r.len() == c + 2 + tail.len());
    assert(tail.len() >= 1);
    assert(r[r.len() - 1] == tail[tail.len() - 1]);
    assert(is_sig_char(r[r.len() - 1]));
    assert(!is_sig_char(','));
    assert(!is_sig_char(' '));
    assert(!crate::text::is_ident_char(','));
    assert(!is_digit(','));
    // simple
    assert(crate::sig::spec_sig_simple(r) is None) by {
        assert(!is_ident(r));
    }
    // hash
    assert(crate::sig::spec_sig_hash(r) is None) by {
        let h = crate::text::find_char(r, '#');
        crate::text::lemma_find_from(r, 0, '#');
        if h < r.len() {
            assert(r[h] == '#');
            assert(h != c);
            if c < h {
                assert(r.subrange(0, h)[c] == ',');
                assert(!is_ident(r.subrange(0, h)));
            } else {
                let ds = r.subrange(h + 1, r.len() as int);
                assert(ds[c - h - 1] == ',');
                assert(!crate::text::is_digits(ds));
            }
        }
    }
    // bracketed forms
    let b = crate::text::find_char(r, '[');
    crate::text::lemma_find_from(r, 0, '[');
    if b + 2 <= r.len() && r[r.len() - 1] == ']' && is_ident(r.subrange(0, b)) {
        // the bracket opens before the comma, else the name holds the comma
        assert(b < r.len());
        assert(b != c);
        assert(b < c) by {
            if b > c {
                assert(r.subrange(0, b)[c] == ',');
                assert(crate::text::is_ident_char(r.subrange(0, b)[c]));
            }
        }
        let inner = r.subrange(b + 1, r.len() - 1);
        let m = c - b - 1;
        assert(c < r.len() - 1);
        assert(inner[m] == ',');
        assert(inner[m + 1] == ' ');
        assert(!crate::text::is_digits(inner));
        assert(crate::sig::spec_sig_index(r) is None);
        let c1 = crate::text::find_char(inner, ':');
        crate::text::lemma_find_from(inner, 0, ':');
        assert(crate::sig::spec_sig_range(r) is None) by {
            if c1 < inner.len() {
                assert(inner[c1] == ':');
                assert(m != c1);
                if m < c1 {
                    assert(inner.subrange(0, c1)[m] == ',');
                    assert(!crate::text::is_digits(inner.subrange(0, c1)));
                } else {
                    assert(inner.subrange(c1 + 1, inner.len() as int)[m - c1 - 1] == ',');
                    assert(!crate::text::is_digits(
                        inner.subrange(c1 + 1, inner.len() as int),
                    ));
                }
            }
        }
        assert(crate::sig::spec_sig_range_step(r) is None) by {
            if c1 < inner.len() {
                assert(inner[c1] == ':');
                assert(m != c1);
                let c2 = crate::text::find_from(inner, c1 + 1, ':');
                crate::text::lemma_find_from(inner, c1 + 1, ':');
                if m < c1 {
                    assert(inner.subrange(0, c1)[m] == ',');
                    assert(!crate::text::is_digits(inner.subrange(0, c1)));
                } else if c2 < inner.len() {
                    assert(inner[c2] == ':');
                    assert(m != c2);
                    if m < c2 {
                        assert(inner.subrange(c1 + 1, c2)[m - c1 - 1] == ',');
                        assert(!crate::text::is_digits(inner.subrange(c1 + 1, c2)));
                    } else {
                        assert(inner.subrange(c2 + 1, inner.len() as int)[m - c2 - 1] == ',');
                        assert(!crate::text::is_digits(
                            inner.subrange(c2 + 1, inner.len() as int),
                        ));
                    }
                }
            }
        }
    } else {
        assert(crate::sig::spec_bracket(r) is None);
        assert(crate::sig::spec_sig_index(r) is None);
        assert(crate::sig::spec_sig_range(r) is None);
        assert(crate::sig::spec_sig_range_step(r) is None);
    }
    // quotes
    assert(crate::sig::spec_sig_quote(r) is None) by {
        let q = crate::text::find_char(r, '\'');
        crate::text::lemma_find_from(r, 0, '\'');
        let wpart = r.subrange(q + 1, r.len() as int);
        if q < r.len() && crate::text::is_digits(wpart) && digits_val(wpart) <= i32::MAX {
            assert(r[q] == '\'');
            assert(q != c);
            assert(c < q) by {
                if c > q {
                    assert(wpart[c - q - 1] == ',');
                    assert(!is_digit(','));
                }
            }
            let v = r.subrange(0, q);
            assert(v[c] == ',');
            assert(!crate::text::is_digits(v));
            assert(crate::sig::spec_quote_implicit(r) is None);
            assert(crate::sig::spec_quote_bin(r) is None) by {
                if c >= 2 {
                    assert(v.subrange(2, v.len() as int)[c - 2] == ',');
                    assert(!crate::text::is_bin_digit(','));
                    assert(!crate::text::is_bin_digits(v.subrange(2, v.len() as int)));
                } else if c == 0 {
                    assert(v[0] == ',');
                } else {
                    assert(v[1] == ',');
                }
            }
            assert(crate::sig::spec_quote_hex(r) is None) by {
                if c >= 2 {
                    assert(v.subrange(2, v.len() as int)[c - 2] == ',');
                    assert(!crate::text::is_hex_digit(','));
                    assert(!crate::text::is_hex_digits(v.subrange(2, v.len() as int)));
                } else if c == 0 {
                    assert(v[0] == ',');
                } else {
                    assert(v[1] == ',');
                }
            }
            assert(crate::sig::spec_quote_dec(r) is None) by {
                if c >= 2 {
                    assert(v.subrange(2, v.len() as int)[c - 2] == ',');
                    assert(!crate::text::is_digits(v.subrange(2, v.len() as int)));
                } else if c == 0 {
                    assert(v[0] == ',');
                } else {
                    assert(v[1] == ',');
                }
            }
        } else {
            assert(crate::sig::spec_quote_split(r) is None);
        }
    }
}

/// Splitting and re-parsing a rendered concatenation, with or without one
/// leading space, gives back its elements.
pub proof fn lemma_concat_parts_render(es: Seq<SigV>, sp: bool)
    requires
        es.len() >= 1,
        forall|k: int|
            0 <= k < es.len() ==> !((#[trigger] es[k]) is Concat) && renderable_sig(es[k]),
    ensures
        crate::sig::spec_concat_parts(
            crate::sig::spec_split_commas(
                (if sp {
                    seq![' ']
                } else {
                    Seq::<char>::empty()
                }) + spec_render_concat(es),
            ),
        ) == Option::Some(es),
    decreases es.len(),
{
    let pre = if sp {
        seq![' ']
    } else {
        Seq::<char>::empty()
    };
    let pl = pre.len() as int;
    assert(!(es[0] is Concat) && renderable_sig(es[0]));
    lemma_render_sig_chars(es[0]);
    lemma_one_of_render(es[0]);
    let r0 = spec_render_sig(es[0]);
    assert(!crate::text::is_space(r0[0]) && !crate::text::is_space(r0[r0.len() - 1])) by {
        assert(is_sig_char(r0[0]));
        assert(is_sig_char(r0[r0.len() - 1]));
    }
    lemma_trim_pre(r0, sp);
    let t = pre + spec_render_concat(es);
    if es.len() == 1 {
        assert(t =~= pre + r0);
        assert(crate::text::find_char(t, ',') == t.len()) by {
            assert forall|k: int| 0 <= k < t.len() implies t[k] != ',' by {
                if k < pl {
                    assert(t[k] == ' ');
                } else {
                    assert(t[k] == r0[k - pl]);
                    assert(is_sig_char(r0[k - pl]));
                }
            }
            crate::text::lemma_find_from_unique(t, 0, ',', t.len() as int);
        }
        assert(crate::sig::spec_split_commas(t) == seq![t]);
        assert(crate::sig::spec_split_commas(t).drop_first() =~= Seq::<Seq<char>>::empty());
        assert(crate::text::trim(t) == r0);
        assert(crate::sig::spec_concat_parts(Seq::<Seq<char>>::empty()) == Option::Some(
            Seq::<SigV>::empty(),
        ));
        assert(seq![es[0]] + Seq::<SigV>::empty() =~= es);
    } else {
        let tail = spec_render_concat(es.drop_first());
        assert(spec_render_concat(es) == r0 + seq![','] + seq![' '] + tail);
        let cpos = pl + r0.len() as int;
        assert(t.len() == cpos + 2 + tail.len());
        assert(t[cpos] == ',');
        assert(crate::text::find_char(t, ',') == cpos) by {
            assert forall|k: int| 0 <= k < cpos implies t[k] != ',' by {
                if k < pl {
                    assert(t[k] == ' ');
                } else {
                    assert(t[k] == r0[k - pl]);
                    assert(is_sig_char(r0[k - pl]));
                }
            }
            crate::text::lemma_find_from_unique(t, 0, ',', cpos);
        }
        assert(t.subrange(0, cpos) =~= pre + r0);
        assert(t.subrange(cpos + 1, t.len() as int) =~= seq![' '] + tail);
        lemma_concat_parts_render(es.drop_first(), true);
        assert(crate::sig::spec_split_commas(t) == seq![pre + r0] + crate::sig::spec_split_commas(
            seq![' '] + tail,
        ));
        assert(crate::text::trim(pre + r0) == r0);
        let parts = crate::sig::spec_split_commas(t);
        assert(parts[0] == pre + r0);
        assert(parts.drop_first() =~= crate::sig::spec_split_commas(seq![' '] + tail));
        assert(crate::sig::spec_concat_parts(parts) == Option::Some(
            seq![es[0]] + es.drop_first(),
        ));
        assert(seq![es[0]] + es.drop_first() =~= es);
    }
}

/// Parsing the rendering of any renderable signal gives the signal back.
pub proof fn lemma_parse_render_sig(s: SigV)
    requires
        renderable_sig(s),
    ensures
        crate::sig::spec_parse_sig(spec_render_sig(s)) == Option::Some(s),
{
    if !(s is Concat) {
        lemma_one_of_render(s);
    } else {
        let es = s->Concat_0;
        let r = spec_render_concat(es);
        lemma_one_of_fails_concat(es);
        lemma_render_sig_chars(es[0]);
        let r0 = spec_render_sig(es[0]);
        lemma_render_concat_shape(es.drop_first());
        assert(r == r0 + seq![','] + seq![' '] + spec_render_concat(es.drop_first()));
        assert(r[r0.len() as int] == ',');
        crate::text::lemma_find_from(r, 0, ',');
        assert(crate::text::find_char(r, ',') < r.len());
        lemma_concat_parts_render(es, false);
        assert(Seq::<char>::empty() + r =~= r);
        assert(crate::sig::spec_sig_concat(r) == Option::Some(SigV::Concat(es)));
    }
}

/// A rendered decimal is non-empty, made of digits, `-` and `e` only, and
/// begins with a sign or digit and ends with a digit.
pub proof fn lemma_render_dec_chars(d: DecV)
    requires
        renderable_dec(d),
    ensures
        spec_render_dec(d).len() >= 1,
        spec_render_dec(d)[0] == '-' || is_digit(spec_render_dec(d)[0]),
        is_digit(spec_render_dec(d)[spec_render_dec(d).len() - 1]),
        forall|k: int|
            0 <= k < spec_render_dec(d).len() ==> #[trigger] spec_render_dec(d)[k] == '-'
                || spec_render_dec(d)[k] == 'e' || is_digit(spec_render_dec(d)[k]),
{
    let r = spec_render_dec(d);
    let sgn = if d.neg {
        1int
    } else {
        0int
    };
    let mant = if d.digits.len() == 0 {
        seq!['0']
    } else {
        digit_chars(d.digits)
    };
    let ml = mant.len() as int;
    let ea = if d.exp < 0 {
        -d.exp
    } else {
        d.exp
    };
    let es = if d.exp < 0 {
        1int
    } else {
        0int
    };
    let echars = int_chars(ea);
    lemma_int_chars(ea);
    lemma_digit_chars_val(d.digits);
    assert(is_digit('0'));
    assert(forall|k: int| 0 <= k < ml ==> is_digit(#[trigger] mant[k]));
    if d.exp == 0 {
        assert(r.len() == sgn + ml);
        assert(r[r.len() - 1] == mant[ml - 1]);
    } else {
        assert(r.len() == sgn + ml + 1 + es + echars.len());
        assert(r[r.len() - 1] == echars[echars.len() - 1]);
    }
    if d.neg {
        assert(r[0] == '-');
    } else {
        assert(r[0] == mant[0]);
    }
    assert forall|k: int| 0 <= k < r.len() implies #[trigger] r[k] == '-' || r[k] == 'e'
        || is_digit(r[k]) by {
        if k < sgn {
            assert(r[k] == '-');
        } else if k < sgn + ml {
            assert(r[k] == mant[k - sgn]);
        } else if k == sgn + ml {
            assert(r[k] == 'e');
        } else if k < sgn + ml + 1 + es {
            assert(r[k] == '-');
        } else {
            assert(r[k] == echars[k - sgn - ml - 1 - es]);
        }
    }
}

/// A rendered action is non-empty and free of surrounding whitespace.
pub proof fn lemma_render_action_shape(a: ActionV)
    requires
        renderable_action(a),
    ensures
        spec_render_action(a).len() >= 1,
        !crate::text::is_space(spec_render_action(a)[0]),
        !crate::text::is_space(spec_render_action(a)[spec_render_action(a).len() - 1]),
{
    reveal_strlit("assert ");
    reveal_strlit("deassert ");
    reveal_strlit("sample ");
    reveal_strlit("tran ");
    let r = spec_render_action(a);
    match a {
        ActionV::Assert(n) => {
            assert(r[0] == 'a');
            assert(r[r.len() - 1] == n[n.len() - 1]);
            assert(crate::text::is_ident_char(n[n.len() - 1]));
        },
        ActionV::Deassert(n) => {
            assert(r[0] == 'd');
            assert(r[r.len() - 1] == n[n.len() - 1]);
            assert(crate::text::is_ident_char(n[n.len() - 1]));
        },
        ActionV::Sample(n) => {
            assert(r[0] == 's');
            assert(r[r.len() - 1] == n[n.len() - 1]);
            assert(crate::text::is_ident_char(n[n.len() - 1]));
        },
        ActionV::Tran(dur) => {
            assert(r[0] == 't');
            match dur {
                DurationV::Micro(x) => {
                    assert(r[r.len() - 1] == 'u');
                },
                DurationV::Nano(x) => {
                    assert(r[r.len() - 1] == 'n');
                },
                DurationV::Pico(x) => {
                    assert(r[r.len() - 1] == 'p');
                },
                DurationV::Fempto(x) => {
                    assert(r[r.len() - 1] == 'f');
                },
                DurationV::Atto(x) => {
                    assert(r[r.len() - 1] == 'a');
                },
            }
        },
        ActionV::SetSignal(sg, x) => {
            lemma_render_sig_shape(sg);
            lemma_render_dec_chars(x);
            let rs = spec_render_sig(sg);
            let rd = spec_render_dec(x);
            assert(r[0] == rs[0]);
            assert(is_sig_char(rs[0]));
            assert(r[r.len() - 1] == rd[rd.len() - 1]);
            assert(is_digit(rd[rd.len() - 1]));
        },
    }
}

/// The four action keywords hold only ASCII letters.
proof fn lemma_kw_letters()
    ensures
        forall|j: int|
            0 <= j < "assert"@.len() ==> crate::mod_test::is_ascii_alpha(
                #[trigger] "assert"@[j],
            ),
        forall|j: int|
            0 <= j < "deassert"@.len() ==> crate::mod_test::is_ascii_alpha(
                #[trigger] "deassert"@[j],
            ),
        forall|j: int|
            0 <= j < "sample"@.len() ==> crate::mod_test::is_ascii_alpha(
                #[trigger] "sample"@[j],
            ),
        forall|j: int|
            0 <= j < "tran"@.len() ==> crate::mod_test::is_ascii_alpha(#[trigger] "tran"@[j]),
        "assert"@.len() == 6,
        "deassert"@.len() == 8,
        "sample"@.len() == 6,
        "tran"@.len() == 4,
{
    reveal_strlit("assert");
    reveal_strlit("deassert");
    reveal_strlit("sample");
    reveal_strlit("tran");
    assert forall|j: int| 0 <= j < "assert"@.len() implies crate::mod_test::is_ascii_alpha(
        #[trigger] "assert"@[j],
    ) by {
        if j == 0 {
        } else if j == 1 {
        } else if j == 2 {
        } else if j == 3 {
        } else if j == 4 {
        } else {
        }
    }
    assert forall|j: int| 0 <= j < "deassert"@.len() implies crate::mod_test::is_ascii_alpha(
        #[trigger] "deassert"@[j],
    ) by {
        if j == 0 {
        } else if j == 1 {
        } else if j == 2 {
        } else if j == 3 {
        } else if j == 4 {
        } else if j == 5 {
        } else if j == 6 {
        } else {
        }
    }
    assert forall|j: int| 0 <= j < "sample"@.len() implies crate::mod_test::is_ascii_alpha(
        #[trigger] "sample"@[j],
    ) by {
        if j == 0 {
        } else if j == 1 {
        } else if j == 2 {
        } else if j == 3 {
        } else if j == 4 {
        } else {
        }
    }
    assert forall|j: int| 0 <= j < "tran"@.len() implies crate::mod_test::is_ascii_alpha(
        #[trigger] "tran"@[j],
    ) by {
        if j == 0 {
        } else if j == 1 {
        } else if j == 2 {
        } else {
        }
    }
}

/// On the render of a set-signal action, no keyword form can fire: a
/// keyword prefix is never followed by a space.
proof fn lemma_setsignal_kw_blocked(t: Seq<char>, sg: SigV, kw: Seq<char>)
    requires
        renderable_sig(sg),
        kw.len() >= 1,
        forall|j: int| 0 <= j < kw.len() ==> crate::mod_test::is_ascii_alpha(#[trigger] kw[j]),
        spec_render_sig(sg).len() + 1 <= t.len(),
        t.subrange(0, spec_render_sig(sg).len() as int) == spec_render_sig(sg),
        t[spec_render_sig(sg).len() as int] == '=',
        crate::text::has_prefix(t, kw),
    ensures
        crate::text::run_len(t, kw.len() as int, crate::text::space_pred()) == 0,
{
    let rs = spec_render_sig(sg);
    let e0 = rs.len() as int;
    let kl = kw.len() as int;
    lemma_render_sig_shape(sg);
    assert forall|k: int| 0 <= k < e0 implies #[trigger] t[k] == rs[k] by {
        assert(rs[k] == t.subrange(0, e0)[k]);
    }
    crate::text::lemma_run_len(t, kl, crate::text::space_pred());
    if crate::text::run_len(t, kl, crate::text::space_pred()) >= 1 {
        assert(kl < t.len());
        assert(crate::text::is_space(t[kl]));
        assert(crate::mod_test::is_ascii_alpha(kw[kl - 1]));
        assert(t[kl - 1] == kw[kl - 1]);
        if kl < e0 {
            assert(t[kl] == rs[kl]);
            assert(rs[kl - 1] == ',');
            assert(t[kl - 1] == ',');
            assert(!crate::mod_test::is_ascii_alpha(','));
        } else if kl == e0 {
            assert(t[kl] == '=');
            assert(!crate::text::is_space('='));
        } else {
            assert(t[e0] == '=');
            assert(kw[e0] == t[e0]);
            assert(crate::mod_test::is_ascii_alpha(kw[e0]));
            assert(!crate::mod_test::is_ascii_alpha('='));
        }
        assert(false);
    }
}

/// A keyword action form fires on its own render followed by anything that
/// starts with a space.
proof fn lemma_kw_action_fires(t: Seq<char>, kw: Seq<char>, n: Seq<char>, tail: Seq<char>)
    requires
        kw.len() >= 1,
        is_ident(n),
        t == (kw + seq![' ']) + n + tail,
        tail.len() == 0 || tail[0] == ' ',
    ensures
        crate::mod_test::try_kw_ident(t, kw) == Option::Some((n, tail)),
{
    let kl = kw.len() as int;
    let nl = n.len() as int;
    assert(t.len() == kl + 1 + nl + tail.len());
    assert forall|k: int| 0 <= k < kl implies #[trigger] t[k] == kw[k] by {}
    assert(crate::text::has_prefix(t, kw));
    assert(t[kl] == ' ');
    assert(crate::text::is_space(' '));
    assert(t[kl + 1] == n[0]);
    assert(crate::text::is_ident_start(n[0]));
    assert(!crate::text::is_space(n[0]));
    crate::text::lemma_run_len_unique(t, kl, crate::text::space_pred(), kl + 1);
    assert(crate::text::run_len(t, kl, crate::text::space_pred()) == 1);
    let p = kl + 1;
    assert(crate::text::run_len(t, p + 1, crate::text::ident_char_pred()) == nl - 1) by {
        assert forall|k: int| p + 1 <= k < p + nl implies crate::text::is_ident_char(
            #[trigger] t[k],
        ) by {
            assert(t[k] == n[k - p]);
        }
        if p + nl < t.len() {
            assert(t[p + nl] == tail[0]);
            assert(tail[0] == ' ');
            assert(!crate::text::is_ident_char(' '));
        }
        crate::text::lemma_run_len_unique(t, p + 1, crate::text::ident_char_pred(), p + nl);
    }
    assert(t.subrange(p, p + nl) =~= n);
    assert(t.subrange(p + nl, t.len() as int) =~= tail);
}

/// The `tran` form fires on its own render followed by anything that starts
/// with a space.
proof fn lemma_tran_fires(t: Seq<char>, x: DecV, u: char, tail: Seq<char>)
    requires
        renderable_dec(x),
        crate::mod_test::is_unit_char(u),
        t == ("tran"@ + seq![' ']) + spec_render_dec(x) + seq![u] + tail,
        tail.len() == 0 || tail[0] == ' ',
    ensures
        crate::mod_test::try_tran(t) == crate::mod_test::TranTryV::Matched(
            crate::mod_test::mk_duration(u, x),
            tail,
        ),
{
    reveal_strlit("tran");
    lemma_render_dec_chars(x);
    let rd = spec_render_dec(x);
    let rl = rd.len() as int;
    assert(t.len() == 5 + rl + 1 + tail.len());
    assert forall|k: int| 0 <= k < 4 implies #[trigger] t[k] == "tran"@[k] by {}
    assert(crate::text::has_prefix(t, "tran"@));
    assert(t[4] == ' ');
    assert(crate::text::is_space(' '));
    assert(t[5] == rd[0]);
    assert(!crate::text::is_space(rd[0]));
    crate::text::lemma_run_len_unique(t, 4, crate::text::space_pred(), 5);
    assert(crate::text::run_len(t, 4, crate::text::space_pred()) == 1);
    assert(t.subrange(5, 5 + rl) =~= rd);
    assert(t[5 + rl] == u);
    assert(num_stopper(u));
    lemma_scan_render_dec_at(t, 5, x);
    assert(crate::num::num_matches(t, 5));
    assert(crate::num::num_end(t, 5) == 5 + rl);
    assert(crate::num::num_value(t, 5) == x);
    assert(t.subrange(5 + rl + 1, t.len() as int) =~= tail);
}

/// Consuming one action from its render followed by the rest of the line
/// yields exactly that action and the rest.
pub proof fn lemma_consume_render(a: ActionV, tail: Seq<char>)
    requires
        renderable_action(a),
        tail.len() == 0 || (tail[0] == ' ' && !crate::text::is_space(tail[tail.len() - 1])),
    ensures
        crate::mod_test::spec_consume_action(spec_render_action(a) + tail) == Result::<
            (ActionV, Seq<char>),
            Seq<Seq<char>>,
        >::Ok((a, tail)),
{
    match a {
        ActionV::Assert(n) => lemma_consume_render_group(a, tail),
        ActionV::Deassert(n) => lemma_consume_render_group(a, tail),
        ActionV::Sample(n) => lemma_consume_render_group(a, tail),
        ActionV::Tran(dur) => lemma_consume_render_tran(a, tail),
        ActionV::SetSignal(sg, x) => lemma_consume_render_set(a, tail),
    }
}

/// The keyword-action cases of `lemma_consume_render`.
#[verifier::rlimit(100)]
proof fn lemma_consume_render_group(a: ActionV, tail: Seq<char>)
    requires
        renderable_action(a),
        a is Assert || a is Deassert || a is Sample,
        tail.len() == 0 || (tail[0] == ' ' && !crate::text::is_space(tail[tail.len() - 1])),
    ensures
        crate::mod_test::spec_consume_action(spec_render_action(a) + tail) == Result::<
            (ActionV, Seq<char>),
            Seq<Seq<char>>,
        >::Ok((a, tail)),
{
    reveal_strlit("assert");
    reveal_strlit("deassert");
    reveal_strlit("sample");
    reveal_strlit("tran");
    reveal_strlit("assert ");
    reveal_strlit("deassert ");
    reveal_strlit("sample ");
    reveal_strlit("tran ");
    lemma_kw_letters();
    lemma_render_action_shape(a);
    let ra = spec_render_action(a);
    let raw = ra + tail;
    assert(raw[0] == ra[0]);
    assert(!crate::text::is_space(raw[0]));
    assert(!crate::text::is_space(raw[raw.len() - 1])) by {
        if tail.len() == 0 {
            assert(raw[raw.len() - 1] == ra[ra.len() - 1]);
        } else {
            assert(raw[raw.len() - 1] == tail[tail.len() - 1]);
        }
    }
    lemma_trim_pre(raw, false);
    assert(Seq::<char>::empty() + raw =~= raw);
    assert(crate::text::trim(raw) == raw);
    let t = raw;
    match a {
        ActionV::Assert(n) => {
            assert(t =~= ("assert"@ + seq![' ']) + n + tail);
            lemma_kw_action_fires(t, "assert"@, n, tail);
        },
        ActionV::Deassert(n) => {
            assert(t =~= ("deassert"@ + seq![' ']) + n + tail);
            assert(t[0] == 'd');
            assert(!crate::text::has_prefix(t, "assert"@)) by {
                if crate::text::has_prefix(t, "assert"@) {
                    assert(t[0] == "assert"@[0]);
                }
            }
            lemma_kw_action_fires(t, "deassert"@, n, tail);
        },
        ActionV::Sample(n) => {
            assert(t =~= ("sample"@ + seq![' ']) + n + tail);
            assert(t[0] == 's');
            assert(!crate::text::has_prefix(t, "assert"@)) by {
                if crate::text::has_prefix(t, "assert"@) {
                    assert(t[0] == "assert"@[0]);
                }
            }
            assert(!crate::text::has_prefix(t, "deassert"@)) by {
                if crate::text::has_prefix(t, "deassert"@) {
                    assert(t[0] == "deassert"@[0]);
                }
            }
            lemma_kw_action_fires(t, "sample"@, n, tail);
        },
        ActionV::Tran(dur) => {
            assert(false);
        },
        ActionV::SetSignal(sg, x) => {
            assert(false);
        },
    }
}

/// The `tran` case of `lemma_consume_render`.
#[verifier::rlimit(100)]
proof fn lemma_consume_render_tran(a: ActionV, tail: Seq<char>)
    requires
        renderable_action(a),
        a is Tran,
        tail.len() == 0 || (tail[0] == ' ' && !crate::text::is_space(tail[tail.len() - 1])),
    ensures
        crate::mod_test::spec_consume_action(spec_render_action(a) + tail) == Result::<
            (ActionV, Seq<char>),
            Seq<Seq<char>>,
        >::Ok((a, tail)),
{
    reveal_strlit("assert");
    reveal_strlit("deassert");
    reveal_strlit("sample");
    reveal_strlit("tran ");
    lemma_render_action_shape(a);
    let ra = spec_render_action(a);
    let raw = ra + tail;
    assert(raw[0] == ra[0]);
    assert(!crate::text::is_space(raw[0]));
    assert(!crate::text::is_space(raw[raw.len() - 1])) by {
        if tail.len() == 0 {
            assert(raw[raw.len() - 1] == ra[ra.len() - 1]);
        } else {
            assert(raw[raw.len() - 1] == tail[tail.len() - 1]);
        }
    }
    lemma_trim_pre(raw, false);
    assert(Seq::<char>::empty() + raw =~= raw);
    assert(crate::text::trim(raw) == raw);
    let t = raw;
    assert(t[0] == 't');
    assert(!crate::text::has_prefix(t, "assert"@)) by {
        if crate::text::has_prefix(t, "assert"@) {
            assert(t[0] == "assert"@[0]);
        }
    }
    assert(!crate::text::has_prefix(t, "deassert"@)) by {
        if crate::text::has_prefix(t, "deassert"@) {
            assert(t[0] == "deassert"@[0]);
        }
    }
    assert(!crate::text::has_prefix(t, "sample"@)) by {
        if crate::text::has_prefix(t, "sample"@) {
            assert(t[0] == "sample"@[0]);
        }
    }
    let dur = a->Tran_0;
    let x = match dur {
        DurationV::Micro(y) => y,
        DurationV::Nano(y) => y,
        DurationV::Pico(y) => y,
        DurationV::Fempto(y) => y,
        DurationV::Atto(y) => y,
    };
    let u = match dur {
        DurationV::Micro(y) => 'u',
        DurationV::Nano(y) => 'n',
        DurationV::Pico(y) => 'p',
        DurationV::Fempto(y) => 'f',
        DurationV::Atto(y) => 'a',
    };
    assert(spec_render_duration(dur) == spec_render_dec(x) + seq![u]);
    assert(crate::mod_test::is_unit_char(u));
    assert(crate::mod_test::mk_duration(u, x) == dur);
    assert(t =~= ("tran"@ + seq![' ']) + spec_render_dec(x) + seq![u] + tail) by {
        reveal_strlit("tran");
    }
    lemma_tran_fires(t, x, u, tail);
}

/// On a set-signal render, none of the keyword forms fires.
#[verifier::rlimit(100)]
proof fn lemma_setsignal_no_kw(t: Seq<char>, sg: SigV)
    requires
        renderable_sig(sg),
        spec_render_sig(sg).len() + 1 <= t.len(),
        t.subrange(0, spec_render_sig(sg).len() as int) == spec_render_sig(sg),
        t[spec_render_sig(sg).len() as int] == '=',
    ensures
        crate::mod_test::try_kw_ident(t, "assert"@) is None,
        crate::mod_test::try_kw_ident(t, "deassert"@) is None,
        crate::mod_test::try_kw_ident(t, "sample"@) is None,
        crate::mod_test::try_tran(t) is NoMatch,
{
    lemma_kw_letters();
    if crate::text::has_prefix(t, "assert"@) {
        lemma_setsignal_kw_blocked(t, sg, "assert"@);
    }
    if crate::text::has_prefix(t, "deassert"@) {
        lemma_setsignal_kw_blocked(t, sg, "deassert"@);
    }
    if crate::text::has_prefix(t, "sample"@) {
        lemma_setsignal_kw_blocked(t, sg, "sample"@);
    }
    if crate::text::has_prefix(t, "tran"@) {
        lemma_setsignal_kw_blocked(t, sg, "tran"@);
    }
}

/// The set-signal case of `lemma_consume_render`.
#[verifier::rlimit(100)]
proof fn lemma_consume_render_set(a: ActionV, tail: Seq<char>)
    requires
        renderable_action(a),
        a is SetSignal,
        tail.len() == 0 || (tail[0] == ' ' && !crate::text::is_space(tail[tail.len() - 1])),
    ensures
        crate::mod_test::spec_consume_action(spec_render_action(a) + tail) == Result::<
            (ActionV, Seq<char>),
            Seq<Seq<char>>,
        >::Ok((a, tail)),
{
    lemma_render_action_shape(a);
    let ra = spec_render_action(a);
    let raw = ra + tail;
    assert(raw[0] == ra[0]);
    assert(!crate::text::is_space(raw[0]));
    assert(!crate::text::is_space(raw[raw.len() - 1])) by {
        if tail.len() == 0 {
            assert(raw[raw.len() - 1] == ra[ra.len() - 1]);
        } else {
            assert(raw[raw.len() - 1] == tail[tail.len() - 1]);
        }
    }
    lemma_trim_pre(raw, false);
    assert(Seq::<char>::empty() + raw =~= raw);
    assert(crate::text::trim(raw) == raw);
    let t = raw;
    let sg = a->SetSignal_0;
    let x = a->SetSignal_1;
    lemma_render_sig_shape(sg);
    lemma_render_dec_chars(x);
    let rs = spec_render_sig(sg);
    let rd = spec_render_dec(x);
    let e0 = rs.len() as int;
    assert(t =~= rs + seq!['='] + rd + tail);
    assert(t.subrange(0, e0) =~= rs);
    assert(t[e0] == '=');
    lemma_setsignal_no_kw(t, sg);
    assert(crate::text::find_char(t, '=') == e0) by {
        assert forall|k: int| 0 <= k < e0 implies t[k] != '=' by {
            assert(t[k] == rs[k]);
        }
        crate::text::lemma_find_from_unique(t, 0, '=', e0);
    }
    assert(crate::text::trim(rs) == rs) by {
        assert(is_sig_char(rs[0]) && is_sig_char(rs[rs.len() - 1]));
        lemma_trim_pre(rs, false);
        assert(Seq::<char>::empty() + rs =~= rs);
    }
    lemma_parse_render_sig(sg);
    assert(t[e0 + 1] == rd[0]);
    assert(!crate::text::is_space(rd[0]));
    crate::text::lemma_run_len_unique(t, e0 + 1, crate::text::space_pred(), e0 + 1);
    assert(crate::text::run_len(t, e0 + 1, crate::text::space_pred()) == 0);
    assert(t.subrange(e0 + 1, e0 + 1 + rd.len()) =~= rd);
    assert(e0 + 1 + rd.len() < t.len() ==> num_stopper(t[e0 + 1 + rd.len()])) by {
        if e0 + 1 + rd.len() < t.len() {
            assert(t[e0 + 1 + rd.len() as int] == tail[0]);
            assert(tail[0] == ' ');
        }
    }
    lemma_scan_render_dec_at(t, e0 + 1, x);
    assert(t.subrange(e0 + 1 + rd.len() as int, t.len() as int) =~= tail);
}

/// A rendered action list is empty only for no actions; otherwise it starts
/// with the separating space and ends with a non-space character.
proof fn lemma_render_actions_shape(actions: Seq<ActionV>)
    requires
        forall|k: int| 0 <= k < actions.len() ==> renderable_action(#[trigger] actions[k]),
    ensures
        actions.len() == 0 ==> spec_render_actions(actions).len() == 0,
        actions.len() > 0 ==> spec_render_actions(actions).len() >= 2 && spec_render_actions(
            actions,
        )[0] == ' ' && !crate::text::is_space(
            spec_render_actions(actions)[spec_render_actions(actions).len() - 1],
        ),
    decreases actions.len(),
{
    if actions.len() > 0 {
        assert(renderable_action(actions[0]));
        lemma_render_action_shape(actions[0]);
        let ra0 = spec_render_action(actions[0]);
        let rest = actions.drop_first();
        assert(forall|k: int| 0 <= k < rest.len() ==> renderable_action(#[trigger] rest[k]))
            by {
            assert(forall|k: int|
                0 <= k < rest.len() ==> rest[k] == actions[k + 1]);
        }
        lemma_render_actions_shape(rest);
        let tail = spec_render_actions(rest);
        let rem = spec_render_actions(actions);
        assert(rem == seq![' '] + ra0 + tail);
        if rest.len() == 0 {
            assert(rem[rem.len() - 1] == ra0[ra0.len() - 1]);
        } else {
            assert(rem[rem.len() - 1] == tail[tail.len() - 1]);
        }
    }
}

/// Consuming actions depends only on the trimmed remainder.
proof fn lemma_consume_trim_eq(r1: Seq<char>, r2: Seq<char>)
    requires
        crate::text::trim(r1) == crate::text::trim(r2),
    ensures
        crate::mod_test::spec_consume_action(r1) == crate::mod_test::spec_consume_action(r2),
{
}

/// The cycle loop reads a rendered action list back into exactly those
/// actions, whether or not the leading separator space was already trimmed.
pub proof fn lemma_cycle_actions_render(actions: Seq<ActionV>)
    requires
        forall|k: int| 0 <= k < actions.len() ==> renderable_action(#[trigger] actions[k]),
    ensures
        crate::mod_test::spec_cycle_actions(spec_render_actions(actions)) == Result::<
            Seq<ActionV>,
            Seq<Seq<char>>,
        >::Ok(actions),
        crate::mod_test::spec_cycle_actions(crate::text::trim(spec_render_actions(actions)))
            == Result::<Seq<ActionV>, Seq<Seq<char>>>::Ok(actions),
    decreases actions.len(),
{
    let rem = spec_render_actions(actions);
    lemma_render_actions_shape(actions);
    if actions.len() == 0 {
        assert(rem.len() == 0);
        assert(crate::text::trim(rem) =~= Seq::<char>::empty());
        assert(crate::text::trim(rem).len() == 0);
        assert(actions =~= Seq::<ActionV>::empty());
    } else {
        let a0 = actions[0];
        assert(renderable_action(a0));
        let rest = actions.drop_first();
        assert(forall|k: int| 0 <= k < rest.len() ==> renderable_action(#[trigger] rest[k]))
            by {
            assert(forall|k: int|
                0 <= k < rest.len() ==> rest[k] == actions[k + 1]);
        }
        lemma_render_action_shape(a0);
        lemma_render_actions_shape(rest);
        let ra0 = spec_render_action(a0);
        let tail = spec_render_actions(rest);
        assert(rem == seq![' '] + ra0 + tail);
        assert(tail.len() == 0 || (tail[0] == ' ' && !crate::text::is_space(
            tail[tail.len() - 1],
        )));
        lemma_consume_render(a0, tail);
        let body = ra0 + tail;
        assert(body[0] == ra0[0]);
        assert(!crate::text::is_space(body[0]));
        assert(!crate::text::is_space(body[body.len() - 1])) by {
            if tail.len() == 0 {
                assert(body[body.len() - 1] == ra0[ra0.len() - 1]);
            } else {
                assert(body[body.len() - 1] == tail[tail.len() - 1]);
            }
        }
        lemma_trim_pre(body, true);
        lemma_trim_pre(body, false);
        assert(Seq::<char>::empty() + body =~= body);
        assert(crate::text::trim(body) == body);
        assert(rem =~= seq![' '] + body);
        assert(crate::text::trim(rem) == body);
        lemma_consume_trim_eq(rem, body);
        assert(crate::mod_test::spec_consume_action(body) == Result::<
            (ActionV, Seq<char>),
            Seq<Seq<char>>,
        >::Ok((a0, tail)));
        lemma_cycle_actions_render(rest);
        if tail.len() == 0 {
            assert(rest.len() == 0);
            assert(actions =~= seq![a0]);
            assert(crate::mod_test::spec_cycle_actions(rem) == Result::<
                Seq<ActionV>,
                Seq<Seq<char>>,
            >::Ok(seq![a0]));
            assert(crate::mod_test::spec_cycle_actions(body) == Result::<
                Seq<ActionV>,
                Seq<Seq<char>>,
            >::Ok(seq![a0]));
        } else {
            assert(crate::mod_test::spec_cycle_actions(crate::text::trim(tail)) == Result::<
                Seq<ActionV>,
                Seq<Seq<char>>,
            >::Ok(rest));
            assert(seq![a0] + rest =~= actions);
            assert(crate::mod_test::spec_cycle_actions(rem) == Result::<
                Seq<ActionV>,
                Seq<Seq<char>>,
            >::Ok(actions));
            assert(crate::mod_test::spec_cycle_actions(body) == Result::<
                Seq<ActionV>,
                Seq<Seq<char>>,
            >::Ok(actions));
        }
    }
}

/// Rendering a cycle line and parsing it back reproduces the action
/// sequence exactly: the grammar round-trips under its own pretty-printer,
/// for every action list the grammar itself can produce.
pub proof fn lemma_cycle_round_trip(actions: Seq<ActionV>)
    requires
        forall|k: int| 0 <= k < actions.len() ==> renderable_action(#[trigger] actions[k]),
    ensures
        crate::mod_test::spec_parse_cycle_line(spec_render_cycle(actions)) == Result::<
            Seq<ActionV>,
            Seq<Seq<char>>,
        >::Ok(actions),
{
    reveal_strlit(".cycle");
    let line = spec_render_cycle(actions);
    assert(crate::text::has_prefix(line, ".cycle"@)) by {
        assert forall|k: int| 0 <= k < 6 implies #[trigger] line[k] == ".cycle"@[k] by {}
    }
    assert(line.subrange(6, line.len() as int) =~= spec_render_actions(actions));
    lemma_cycle_actions_render(actions);
}

/// Below the cap, capped accumulation is exact.
pub proof fn lemma_exp_accum_nfold(s: Seq<char>, lo: int, hi: int, acc: int)
    requires
        0 <= lo <= hi <= s.len(),
        0 <= acc,
        forall|k: int| lo <= k < hi ==> is_digit(#[trigger] s[k]),
        nfold(s, lo, hi, acc) <= EXP_CAP as int,
    ensures
        crate::num::exp_accum(s, lo, hi, acc) == nfold(s, lo, hi, acc),
    decreases hi - lo,
{
    if lo < hi {
        assert(is_digit(s[lo]));
        let acc2 = acc * 10 + digit_val(s[lo]);
        lemma_nfold_mono(s, lo + 1, hi, acc2);
        assert(acc < EXP_CAP as int) by {
            if acc >= EXP_CAP as int {
                assert(acc2 >= 10 * acc);
                assert(nfold(s, lo, hi, acc) == nfold(s, lo + 1, hi, acc2));
            }
        }
        lemma_exp_accum_nfold(s, lo + 1, hi, acc2);
    }
}

// ---------------------------------------------------------------------------
// Executable renderers
// ---------------------------------------------------------------------------

/// Append the decimal spelling of a non-negative integer.
fn push_int(out: &mut String, n: i128)
    requires
        0 <= n,
    ensures
        final(out)@ == old(out)@ + int_chars(n as int),
{
    if n == 0 {
        crate::text::push_char(out, '0');
        proof {
            assert(out@ =~= old(out)@ + int_chars(0));
        }
        return ;
    }
    let ghost n0 = n as int;
    let mut m = n;
    let mut rev: Vec<u8> = Vec::new();
    proof {
        assert(Dec::spec_digits_of(n0) =~= Dec::spec_digits_of(m as int) + rev@.reverse());
    }
    while m > 0
        invariant
            0 <= m,
            Dec::spec_digits_of(n0) =~= Dec::spec_digits_of(m as int) + rev@.reverse(),
            forall|j: int| 0 <= j < rev@.len() ==> #[trigger] rev@[j] <= 9,
        decreases m,
    {
        let ghost pre = rev@;
        let ghost mm = m as int;
        rev.push((m % 10) as u8);
        m = m / 10;
        proof {
            assert(rev@.reverse() =~= seq![(mm % 10) as u8] + pre.reverse());
            assert(Dec::spec_digits_of(mm) == Dec::spec_digits_of(mm / 10).push((mm % 10) as u8));
            assert(Dec::spec_digits_of(mm / 10).push((mm % 10) as u8) + pre.reverse()
                =~= Dec::spec_digits_of(mm / 10) + (seq![(mm % 10) as u8] + pre.reverse()));
            assert(Dec::spec_digits_of(n0) =~= Dec::spec_digits_of(m as int) + rev@.reverse());
        }
    }
    proof {
        assert(Dec::spec_digits_of(n0) =~= rev@.reverse());
    }
    let ghost base = out@;
    let nr = rev.len();
    let mut k: usize = nr;
    while k > 0
        invariant
            k <= nr == rev@.len(),
            forall|j: int| 0 <= j < rev@.len() ==> #[trigger] rev@[j] <= 9,
            Dec::spec_digits_of(n0) =~= rev@.reverse(),
            out@ == base + digit_chars(rev@.reverse().subrange(0, nr - k)),
        decreases k,
    {
        k = k - 1;
        let d = rev[k];
        crate::text::push_char(out, (d + 48) as char);
        proof {
            assert(rev@.reverse()[nr - k - 1] == rev@[k as int]);
            assert(out@ =~= base + digit_chars(rev@.reverse().subrange(0, nr - k)));
        }
    }
    proof {
        assert(rev@.reverse().subrange(0, nr as int) =~= rev@.reverse());
        assert(out@ =~= base + int_chars(n0));
    }
}

/// Append the text of a decimal value.
fn push_dec(out: &mut String, d: &Dec)
    requires
        renderable_dec(d@),
    ensures
        final(out)@ == old(out)@ + spec_render_dec(d@),
{
    let ghost base = out@;
    if d.neg {
        crate::text::push_char(out, '-');
    }
    let ghost after_sign = out@;
    if d.digits.len() == 0 {
        crate::text::push_char(out, '0');
    } else {
        let nd = d.digits.len();
        let mut k: usize = 0;
        while k < nd
            invariant
                k <= nd == d.digits@.len(),
                forall|j: int| 0 <= j < nd ==> #[trigger] d.digits@[j] <= 9,
                out@ == after_sign + digit_chars(d.digits@.subrange(0, k as int)),
            decreases nd - k,
        {
            let dg = d.digits[k];
            crate::text::push_char(out, (dg + 48) as char);
            k = k + 1;
            proof {
                assert(out@ =~= after_sign + digit_chars(d.digits@.subrange(0, k as int)));
            }
        }
        proof {
            assert(d.digits@.subrange(0, nd as int) =~= d.digits@);
        }
    }
    let ghost after_mant = out@;
    if d.exp != 0 {
        crate::text::push_char(out, 'e');
        if d.exp < 0 {
            crate::text::push_char(out, '-');
        }
        let ea: i128 = if d.exp < 0 {
            -d.exp
        } else {
            d.exp
        };
        push_int(out, ea);
    }
    proof {
        assert(out@ =~= base + spec_render_dec(d@));
    }
}

/// Append the text of a single-signal form.
fn push_sig_single(out: &mut String, s: &Sig)
    requires
        renderable_sig(s@),
        !(s@ is Concat),
    ensures
        final(out)@ == old(out)@ + spec_render_sig(s@),
{
    let ghost base = out@;
    match s {
        Sig::SigSimple(n) => {
            out.append(n.as_str());
        },
        Sig::SigHash(n, v) => {
            out.append(n.as_str());
            crate::text::push_char(out, '#');
            push_int(out, *v as i128);
            proof {
                assert(out@ =~= base + spec_render_sig(s@));
            }
        },
        Sig::SigIndex(n, v) => {
            out.append(n.as_str());
            crate::text::push_char(out, '[');
            push_int(out, *v as i128);
            crate::text::push_char(out, ']');
            proof {
                assert(out@ =~= base + spec_render_sig(s@));
            }
        },
        Sig::SigRange(n, a, b) => {
            out.append(n.as_str());
            crate::text::push_char(out, '[');
            push_int(out, *a as i128);
            crate::text::push_char(out, ':');
            push_int(out, *b as i128);
            crate::text::push_char(out, ']');
            proof {
                assert(out@ =~= base + spec_render_sig(s@));
            }
        },
        Sig::SigRangeStep(n, a, b, c) => {
            out.append(n.as_str());
            crate::text::push_char(out, '[');
            push_int(out, *a as i128);
            crate::text::push_char(out, ':');
            push_int(out, *b as i128);
            crate::text::push_char(out, ':');
            push_int(out, *c as i128);
            crate::text::push_char(out, ']');
            proof {
                assert(out@ =~= base + spec_render_sig(s@));
            }
        },
        Sig::SigQuote(v, w) => {
            push_int(out, *v as i128);
            crate::text::push_char(out, '\'');
            push_int(out, *w as i128);
            proof {
                assert(out@ =~= base + spec_render_sig(s@));
            }
        },
        Sig::SigConcat(es) => {
            proof {
                assert(false);
            }
        },
    }
}

/// Append the text of a signal expression.
fn push_sig(out: &mut String, s: &Sig)
    requires
        renderable_sig(s@),
    ensures
        final(out)@ == old(out)@ + spec_render_sig(s@),
{
    let ghost base = out@;
    match s {
        Sig::SigConcat(es) => {
            let ghost esv = sig_views(es@);
            proof {
                crate::types::lemma_sig_views(es@);
                assert(spec_render_sig(s@) == spec_render_concat(esv));
                assert(esv[0] == es@[0]@);
            }
            let ne = es.len();
            push_sig_single(out, &es[0]);
            proof {
                lemma_render_concat_from(esv, 1);
                assert(esv.subrange(0, esv.len() as int) =~= esv);
                assert(spec_render_concat(esv) == spec_render_sig(esv[0])
                    + spec_render_concat_from(esv, 1));
            }
            let mut k: usize = 1;
            while k < ne
                invariant
                    1 <= k <= ne == es@.len(),
                    esv == sig_views(es@),
                    esv.len() == ne,
                    forall|j: int|
                        0 <= j < ne ==> !((#[trigger] esv[j]) is Concat) && renderable_sig(
                            esv[j],
                        ),
                    base + spec_render_concat(esv) == out@ + spec_render_concat_from(esv, k as int),
                decreases ne - k,
            {
                let ghost out0 = out@;
                proof {
                    crate::types::lemma_sig_views(es@);
                    assert(esv[k as int] == es@[k as int]@);
                }
                crate::text::push_char(out, ',');
                crate::text::push_char(out, ' ');
                push_sig_single(out, &es[k]);
                proof {
                    assert(out@ =~= out0 + seq![','] + seq![' '] + spec_render_sig(
                        esv[k as int],
                    ));
                    assert(out0 + (seq![','] + seq![' '] + spec_render_sig(esv[k as int])
                        + spec_render_concat_from(esv, k + 1)) =~= out@
                        + spec_render_concat_from(esv, k + 1));
                }
                k = k + 1;
            }
            proof {
                assert(spec_render_concat_from(esv, ne as int) =~= Seq::<char>::empty());
                assert(out@ + Seq::<char>::empty() =~= out@);
            }
        },
        _ => {
            push_sig_single(out, s);
        },
    }
}

/// The `", "`-prefixed renders of the elements from position `k` on.
pub open spec fn spec_render_concat_from(es: Seq<SigV>, k: int) -> Seq<char>
    decreases es.len() - k when 0 <= k <= es.len()
{
    if k >= es.len() {
        Seq::empty()
    } else {
        seq![','] + seq![' '] + spec_render_sig(es[k]) + spec_render_concat_from(es, k + 1)
    }
}

/// The two spellings of a rendered concatenation tail agree.
proof fn lemma_render_concat_from(es: Seq<SigV>, k: int)
    requires
        1 <= k <= es.len(),
    ensures
        spec_render_concat(es.subrange(k - 1, es.len() as int)) == spec_render_sig(es[k - 1])
            + spec_render_concat_from(es, k),
    decreases es.len() - k,
{
    let sub = es.subrange(k - 1, es.len() as int);
    if k == es.len() {
        assert(sub.len() == 1);
        assert(sub[0] == es[k - 1]);
        assert(spec_render_concat(sub) == spec_render_sig(es[k - 1]));
        assert(spec_render_sig(es[k - 1]) + Seq::<char>::empty() =~= spec_render_sig(
            es[k - 1],
        ));
    } else {
        lemma_render_concat_from(es, k + 1);
        assert(sub.len() >= 2);
        assert(sub[0] == es[k - 1]);
        assert(sub.drop_first() =~= es.subrange(k, es.len() as int));
        assert(spec_render_concat(sub) == spec_render_sig(es[k - 1]) + seq![','] + seq![' ']
            + spec_render_concat(es.subrange(k, es.len() as int)));
        assert(spec_render_sig(es[k - 1]) + seq![','] + seq![' '] + (spec_render_sig(es[k])
            + spec_render_concat_from(es, k + 1)) =~= spec_render_sig(es[k - 1]) + (seq![',']
            + seq![' '] + spec_render_sig(es[k]) + spec_render_concat_from(es, k + 1)));
    }
}

/// Append the text of one action.
fn push_action(out: &mut String, a: &Action)
    requires
        renderable_action(a@),
    ensures
        final(out)@ == old(out)@ + spec_render_action(a@),
{
    let ghost base = out@;
    match a {
        Action::Assert(n) => {
            out.append("assert ");
            out.append(n.as_str());
        },
        Action::Deassert(n) => {
            out.append("deassert ");
            out.append(n.as_str());
        },
        Action::Sample(n) => {
            out.append("sample ");
            out.append(n.as_str());
        },
        Action::Tran(dur) => {
            out.append("tran ");
            match dur {
                Duration::MicroSecond(x) => {
                    push_dec(out, x);
                    crate::text::push_char(out, 'u');
                },
                Duration::NanoSecond(x) => {
                    push_dec(out, x);
                    crate::text::push_char(out, 'n');
                },
                Duration::PicoSecond(x) => {
                    push_dec(out, x);
                    crate::text::push_char(out, 'p');
                },
                Duration::FemptoSecond(x) => {
                    push_dec(out, x);
                    crate::text::push_char(out, 'f');
                },
                Duration::AttoSecond(x) => {
                    push_dec(out, x);
                    crate::text::push_char(out, 'a');
                },
            }
            proof {
                assert(out@ =~= base + spec_render_action(a@));
            }
        },
        Action::SetSignal(sg, x) => {
            push_sig(out, sg);
            crate::text::push_char(out, '=');
            push_dec(out, x);
            proof {
                assert(out@ =~= base + spec_render_action(a@));
            }
        },
    }
}

/// Render a cycle line back to its directive text: `.cycle`, then each
/// action preceded by one space.  Parsing this text reproduces the actions
/// exactly (`lemma_cycle_round_trip`).
pub fn render_cycle_line(cl: &CycleLine) -> (r: String)
    requires
        forall|k: int| 0 <= k < cl@.len() ==> renderable_action(#[trigger] cl@[k]),
    ensures
        r@ == spec_render_cycle(cl@),
{
    let mut out = String::from_str(".cycle");
    let ghost av = cl@;
    let na = cl.0.len();
    proof {
        assert(av.len() == na);
        lemma_render_actions_from(av, 0);
        assert(av.subrange(0, av.len() as int) =~= av);
        assert(".cycle"@ + spec_render_actions(av) == out@ + spec_render_actions_from(av, 0));
    }
    let mut k: usize = 0;
    while k < na
        invariant
            k <= na == cl.0@.len(),
            av == cl@,
            av.len() == na,
            forall|j: int| 0 <= j < na ==> renderable_action(#[trigger] av[j]),
            ".cycle"@ + spec_render_actions(av) == out@ + spec_render_actions_from(
                av,
                k as int,
            ),
        decreases na - k,
    {
        let ghost out0 = out@;
        proof {
            assert(av[k as int] == cl.0@[k as int]@);
        }
        crate::text::push_char(&mut out, ' ');
        push_action(&mut out, &cl.0[k]);
        proof {
            assert(out@ =~= out0 + seq![' '] + spec_render_action(av[k as int]));
            assert(out0 + (seq![' '] + spec_render_action(av[k as int])
                + spec_render_actions_from(av, k + 1)) =~= out@ + spec_render_actions_from(
                av,
                k + 1,
            ));
        }
        k = k + 1;
    }
    proof {
        assert(spec_render_actions_from(av, na as int) =~= Seq::<char>::empty());
        assert(out@ + Seq::<char>::empty() =~= out@);
    }
    out
}

/// The space-prefixed renders of the actions from position `k` on.
pub open spec fn spec_render_actions_from(actions: Seq<ActionV>, k: int) -> Seq<char>
    decreases actions.len() - k when 0 <= k <= actions.len()
{
    if k >= actions.len() {
        Seq::empty()
    } else {
        seq![' '] + spec_render_action(actions[k]) + spec_render_actions_from(actions, k + 1)
    }
}

/// The two spellings of a rendered action list agree.
proof fn lemma_render_actions_from(actions: Seq<ActionV>, k: int)
    requires
        0 <= k <= actions.len(),
    ensures
        spec_render_actions(actions.subrange(k, actions.len() as int))
            == spec_render_actions_from(actions, k),
    decreases actions.len() - k,
{
    let sub = actions.subrange(k, actions.len() as int);
    if k < actions.len() {
        lemma_render_actions_from(actions, k + 1);
        assert(sub[0] == actions[k]);
        assert(sub.drop_first() =~= actions.subrange(k + 1, actions.len() as int));
    } else {
        assert(sub.len() == 0);
    }
}

} // verus!
