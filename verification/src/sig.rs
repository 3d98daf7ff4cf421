//! The signal-expression grammar.
//!
//! A signal reference is one of six single-signal forms — `name`, `name#n`,
//! `name[hi:lo]`, `name[hi:lo:step]`, `name[idx]`, or a sized literal
//! `value'bits` in implicit-decimal, `0b`, `0x` or `0d` spelling — or a
//! comma-separated concatenation of single-signal forms.  Each form must
//! match its whole input; the forms are tried in a fixed order.  Numeric
//! components accept leading zeros; only the value is kept, and a component
//! whose value exceeds `i32::MAX` rejects the form.

use vstd::prelude::*;

use crate::bail::Bail;
use crate::bail::E;
use crate::text::all_bin_digits;
use crate::text::all_digits;
use crate::text::all_hex_digits;
use crate::text::chars_of;
use crate::text::digit_val;
use crate::text::digits_val;
use crate::text::find_char;
use crate::text::find_char_from;
use crate::text::find_from;
use crate::text::is_digit;
use crate::text::is_digits;
use crate::text::is_bin_digits;
use crate::text::is_hex_digits;
use crate::text::is_ident;
use crate::text::is_ident_range;
use crate::text::lemma_find_from;
use crate::text::lemma_find_from_unique;
use crate::text::parse_digits_i32;
use crate::text::parse_radix_i32;
use crate::text::radix_val;
use crate::text::string_of_range;
use crate::text::sub_vec;
use crate::text::trim;
use crate::text::trim_vec;
use crate::types::Sig;
use crate::types::SigV;
use crate::types::sig_view;
use crate::types::sig_views;
use crate::types::lemma_sig_views;

verus! {

/// The view of an optional `Sig`.
pub open spec fn osig_view(r: Option<Sig>) -> Option<SigV> {
    match r {
        Option::None => Option::None,
        Option::Some(s) => Option::Some(s@),
    }
}

// ---------------------------------------------------------------------------
// The grammar, one spec function per form
// ---------------------------------------------------------------------------

/// `name`: the whole input is an identifier.
pub open spec fn spec_sig_simple(s: Seq<char>) -> Option<SigV> {
    if is_ident(s) {
        Option::Some(SigV::Simple(s))
    } else {
        Option::None
    }
}

/// `name#digits`.
pub open spec fn spec_sig_hash(s: Seq<char>) -> Option<SigV> {
    let h = find_char(s, '#');
    if h == s.len() {
        Option::None
    } else {
        let name = s.subrange(0, h);
        let ds = s.subrange(h + 1, s.len() as int);
        if is_ident(name) && is_digits(ds) && digits_val(ds) <= i32::MAX {
            Option::Some(SigV::Hashed(name, digits_val(ds)))
        } else {
            Option::None
        }
    }
}

/// `name[inner]`: the name and the bracketed text, when the input has that
/// shape.
pub open spec fn spec_bracket(s: Seq<char>) -> Option<(Seq<char>, Seq<char>)> {
    let b = find_char(s, '[');
    if b + 2 <= s.len() && s[s.len() - 1] == ']' && is_ident(s.subrange(0, b)) {
        Option::Some((s.subrange(0, b), s.subrange(b + 1, s.len() - 1)))
    } else {
        Option::None
    }
}

/// `name[idx]`.
pub open spec fn spec_sig_index(s: Seq<char>) -> Option<SigV> {
    match spec_bracket(s) {
        Option::None => Option::None,
        Option::Some((name, inner)) => {
            if is_digits(inner) && digits_val(inner) <= i32::MAX {
                Option::Some(SigV::Index(name, digits_val(inner)))
            } else {
                Option::None
            }
        },
    }
}

/// `name[hi:lo]`.
pub open spec fn spec_sig_range(s: Seq<char>) -> Option<SigV> {
    match spec_bracket(s) {
        Option::None => Option::None,
        Option::Some((name, inner)) => {
            let c = find_char(inner, ':');
            if c == inner.len() {
                Option::None
            } else {
                let a = inner.subrange(0, c);
                let b = inner.subrange(c + 1, inner.len() as int);
                if is_digits(a) && is_digits(b) && digits_val(a) <= i32::MAX && digits_val(b)
                    <= i32::MAX {
                    Option::Some(SigV::Range(name, digits_val(a), digits_val(b)))
                } else {
                    Option::None
                }
            }
        },
    }
}

/// `name[hi:lo:step]`.
pub open spec fn spec_sig_range_step(s: Seq<char>) -> Option<SigV> {
    match spec_bracket(s) {
        Option::None => Option::None,
        Option::Some((name, inner)) => {
            let c1 = find_char(inner, ':');
            if c1 == inner.len() {
                Option::None
            } else {
                let c2 = find_from(inner, c1 + 1, ':');
                if c2 == inner.len() {
                    Option::None
                } else {
                    let a = inner.subrange(0, c1);
                    let b = inner.subrange(c1 + 1, c2);
                    let c = inner.subrange(c2 + 1, inner.len() as int);
                    if is_digits(a) && is_digits(b) && is_digits(c) && digits_val(a) <= i32::MAX
                        && digits_val(b) <= i32::MAX && digits_val(c) <= i32::MAX {
                        Option::Some(
                            SigV::RangeStep(name, digits_val(a), digits_val(b), digits_val(c)),
                        )
                    } else {
                        Option::None
                    }
                }
            }
        },
    }
}

/// `value'bits`: the value text and the declared bit width, when the input
/// has that shape.  The width is a non-negative integer; leading zeros are
/// accepted and only the value is kept.
pub open spec fn spec_quote_split(s: Seq<char>) -> Option<(Seq<char>, int)> {
    let q = find_char(s, '\'');
    let w = s.subrange(q + 1, s.len() as int);
    if q < s.len() && is_digits(w) && digits_val(w) <= i32::MAX {
        Option::Some((s.subrange(0, q), digits_val(w)))
    } else {
        Option::None
    }
}

/// `digits'bits` (implicit decimal).
pub open spec fn spec_quote_implicit(s: Seq<char>) -> Option<SigV> {
    match spec_quote_split(s) {
        Option::None => Option::None,
        Option::Some((v, w)) => {
            if is_digits(v) && radix_val(v, 10) <= i32::MAX {
                Option::Some(SigV::Quoted(radix_val(v, 10), w))
            } else {
                Option::None
            }
        },
    }
}

/// `0b<bin>'bits`.
pub open spec fn spec_quote_bin(s: Seq<char>) -> Option<SigV> {
    match spec_quote_split(s) {
        Option::None => Option::None,
        Option::Some((v, w)) => {
            if v.len() >= 3 && v[0] == '0' && v[1] == 'b' && is_bin_digits(
                v.subrange(2, v.len() as int),
            ) && radix_val(v.subrange(2, v.len() as int), 2) <= i32::MAX {
                Option::Some(SigV::Quoted(radix_val(v.subrange(2, v.len() as int), 2), w))
            } else {
                Option::None
            }
        },
    }
}

/// `0x<hex>'bits`.
pub open spec fn spec_quote_hex(s: Seq<char>) -> Option<SigV> {
    match spec_quote_split(s) {
        Option::None => Option::None,
        Option::Some((v, w)) => {
            if v.len() >= 3 && v[0] == '0' && v[1] == 'x' && is_hex_digits(
                v.subrange(2, v.len() as int),
            ) && radix_val(v.subrange(2, v.len() as int), 16) <= i32::MAX {
                Option::Some(SigV::Quoted(radix_val(v.subrange(2, v.len() as int), 16), w))
            } else {
                Option::None
            }
        },
    }
}

/// `0d<digits>'bits`.
pub open spec fn spec_quote_dec(s: Seq<char>) -> Option<SigV> {
    match spec_quote_split(s) {
        Option::None => Option::None,
        Option::Some((v, w)) => {
            if v.len() >= 3 && v[0] == '0' && v[1] == 'd' && is_digits(
                v.subrange(2, v.len() as int),
            ) && radix_val(v.subrange(2, v.len() as int), 10) <= i32::MAX {
                Option::Some(SigV::Quoted(radix_val(v.subrange(2, v.len() as int), 10), w))
            } else {
                Option::None
            }
        },
    }
}

/// A sized literal in any of its four spellings, tried in order: implicit
/// decimal, binary, hexadecimal, declared decimal.
pub open spec fn spec_sig_quote(s: Seq<char>) -> Option<SigV> {
    if spec_quote_implicit(s) is Some {
        spec_quote_implicit(s)
    } else if spec_quote_bin(s) is Some {
        spec_quote_bin(s)
    } else if spec_quote_hex(s) is Some {
        spec_quote_hex(s)
    } else {
        spec_quote_dec(s)
    }
}

/// The first single-signal form that matches the whole input, in the fixed
/// order: simple, hash, range, range-with-step, index, sized literal.
pub open spec fn spec_one_of_sig(s: Seq<char>) -> Option<SigV> {
    if spec_sig_simple(s) is Some {
        spec_sig_simple(s)
    } else if spec_sig_hash(s) is Some {
        spec_sig_hash(s)
    } else if spec_sig_range(s) is Some {
        spec_sig_range(s)
    } else if spec_sig_range_step(s) is Some {
        spec_sig_range_step(s)
    } else if spec_sig_index(s) is Some {
        spec_sig_index(s)
    } else {
        spec_sig_quote(s)
    }
}

/// The comma-separated pieces of `s`, in order.
pub open spec fn spec_split_commas(s: Seq<char>) -> Seq<Seq<char>>
    decreases s.len() via spec_split_commas_dec
{
    let c = find_char(s, ',');
    if c == s.len() {
        seq![s]
    } else {
        seq![s.subrange(0, c)] + spec_split_commas(s.subrange(c + 1, s.len() as int))
    }
}

#[via_fn]
proof fn spec_split_commas_dec(s: Seq<char>) {
    lemma_find_from(s, 0, ',');
}

/// Each piece trimmed and parsed as a single-signal form; `None` as soon as
/// one piece fails.
pub open spec fn spec_concat_parts(parts: Seq<Seq<char>>) -> Option<Seq<SigV>>
    decreases parts.len(),
{
    if parts.len() == 0 {
        Option::Some(Seq::empty())
    } else {
        match spec_one_of_sig(trim(parts[0])) {
            Option::None => Option::None,
            Option::Some(sv) => match spec_concat_parts(parts.drop_first()) {
                Option::None => Option::None,
                Option::Some(rest) => Option::Some(seq![sv] + rest),
            },
        }
    }
}

/// A concatenation: only tried when a comma is present; every piece must be a
/// single-signal form.
pub open spec fn spec_sig_concat(s: Seq<char>) -> Option<SigV> {
    if find_char(s, ',') == s.len() {
        Option::None
    } else {
        match spec_concat_parts(spec_split_commas(s)) {
            Option::None => Option::None,
            Option::Some(vs) => Option::Some(SigV::Concat(vs)),
        }
    }
}

/// The whole grammar: a single-signal form, or else a concatenation.
pub open spec fn spec_parse_sig(s: Seq<char>) -> Option<SigV> {
    if spec_one_of_sig(s) is Some {
        spec_one_of_sig(s)
    } else {
        spec_sig_concat(s)
    }
}

// ---------------------------------------------------------------------------
// Executable parsers over character vectors
// ---------------------------------------------------------------------------

pub fn sig_simple_v(s: &Vec<char>) -> (r: Option<Sig>)
    ensures
        osig_view(r) == spec_sig_simple(s@),
{
    proof {
        assert(s@.subrange(0, s@.len() as int) =~= s@);
    }
    if is_ident_range(s, 0, s.len()) {
        Some(Sig::SigSimple(string_of_range(s, 0, s.len())))
    } else {
        None
    }
}

pub fn sig_hash_v(s: &Vec<char>) -> (r: Option<Sig>)
    ensures
        osig_view(r) == spec_sig_hash(s@),
{
    let n = s.len();
    let h = find_char_from(s, 0, '#');
    if h == n {
        return None;
    }
    if !is_ident_range(s, 0, h) {
        return None;
    }
    if !all_digits(s, h + 1, n) {
        return None;
    }
    match parse_digits_i32(s, h + 1, n) {
        None => None,
        Some(v) => Some(Sig::SigHash(string_of_range(s, 0, h), v)),
    }
}

/// The bracket split: name end and inner bounds, when `s` is
/// `ident [ inner ]`.
fn bracket_v(s: &Vec<char>) -> (r: Option<(usize, usize, usize)>)
    ensures
        match r {
            Some((b, lo, hi)) => {
                &&& spec_bracket(s@) == Option::Some(
                    (s@.subrange(0, b as int), s@.subrange(lo as int, hi as int)),
                )
                &&& b < lo == b + 1
                &&& lo <= hi
                &&& hi + 1 == s@.len()
            },
            None => spec_bracket(s@) is None,
        },
{
    let n = s.len();
    let b = find_char_from(s, 0, '[');
    if n < 2 || b > n - 2 {
        return None;
    }
    if s[n - 1] != ']' {
        return None;
    }
    if !is_ident_range(s, 0, b) {
        return None;
    }
    Some((b, b + 1, n - 1))
}

pub fn sig_index_v(s: &Vec<char>) -> (r: Option<Sig>)
    ensures
        osig_view(r) == spec_sig_index(s@),
{
    match bracket_v(s) {
        None => None,
        Some((b, lo, hi)) => {
            let ghost inner = s@.subrange(lo as int, hi as int);
            if !all_digits(s, lo, hi) {
                return None;
            }
            match parse_digits_i32(s, lo, hi) {
                None => None,
                Some(v) => Some(Sig::SigIndex(string_of_range(s, 0, b), v)),
            }
        },
    }
}

/// First `:` inside `s[lo..hi]`, as the offset from `lo`, or `hi - lo` if
/// there is none; positions what `find_char` yields on the inner text.
fn find_colon_in(s: &Vec<char>, lo: usize, hi: usize) -> (r: usize)
    requires
        lo <= hi <= s@.len(),
    ensures
        r == find_char(s@.subrange(lo as int, hi as int), ':'),
        r <= hi - lo,
{
    let ghost inner = s@.subrange(lo as int, hi as int);
    let mut j: usize = lo;
    while j < hi && s[j] != ':'
        invariant
            lo <= j <= hi <= s@.len(),
            forall|k: int| lo <= k < j ==> s@[k] != ':',
        decreases hi - j,
    {
        j = j + 1;
    }
    proof {
        assert(forall|k: int| 0 <= k < j - lo ==> inner[k] == s@[lo + k]);
        lemma_find_from_unique(inner, 0, ':', j - lo);
    }
    j - lo
}

pub fn sig_range_v(s: &Vec<char>) -> (r: Option<Sig>)
    ensures
        osig_view(r) == spec_sig_range(s@),
{
    match bracket_v(s) {
        None => None,
        Some((b, lo, hi)) => {
            let ghost inner = s@.subrange(lo as int, hi as int);
            let c = find_colon_in(s, lo, hi);
            if lo + c == hi {
                return None;
            }
            proof {
                assert(inner.subrange(0, c as int) =~= s@.subrange(lo as int, lo + c));
                assert(inner.subrange(c + 1, inner.len() as int) =~= s@.subrange(
                    lo + c + 1,
                    hi as int,
                ));
            }
            if !all_digits(s, lo, lo + c) || !all_digits(s, lo + c + 1, hi) {
                return None;
            }
            let va = match parse_digits_i32(s, lo, lo + c) {
                None => {
                    return None;
                },
                Some(v) => v,
            };
            let vb = match parse_digits_i32(s, lo + c + 1, hi) {
                None => {
                    return None;
                },
                Some(v) => v,
            };
            Some(Sig::SigRange(string_of_range(s, 0, b), va, vb))
        },
    }
}

pub fn sig_range_step_v(s: &Vec<char>) -> (r: Option<Sig>)
    ensures
        osig_view(r) == spec_sig_range_step(s@),
{
    match bracket_v(s) {
        None => None,
        Some((b, lo, hi)) => {
            let ghost inner = s@.subrange(lo as int, hi as int);
            let c1 = find_colon_in(s, lo, hi);
            if lo + c1 == hi {
                return None;
            }
            let c2r = find_colon_in(s, lo + c1 + 1, hi);
            let c2 = c1 + 1 + c2r;
            proof {
                let i2 = s@.subrange(lo + c1 + 1, hi as int);
                lemma_find_from(i2, 0, ':');
                assert forall|k: int| c1 + 1 <= k < c1 + 1 + c2r implies inner[k] != ':' by {
                    assert(inner[k] == i2[k - c1 - 1]);
                }
                if c2r < i2.len() {
                    assert(inner[c1 + 1 + c2r] == i2[c2r as int]);
                }
                lemma_find_from_unique(inner, c1 + 1, ':', c1 + 1 + c2r);
            }
            if lo + c2 == hi {
                return None;
            }
            proof {
                assert(inner.subrange(0, c1 as int) =~= s@.subrange(lo as int, lo + c1));
                assert(inner.subrange(c1 + 1, c2 as int) =~= s@.subrange(lo + c1 + 1, lo + c2));
                assert(inner.subrange(c2 + 1, inner.len() as int) =~= s@.subrange(
                    lo + c2 + 1,
                    hi as int,
                ));
            }
            if !all_digits(s, lo, lo + c1) || !all_digits(s, lo + c1 + 1, lo + c2) || !all_digits(
                s,
                lo + c2 + 1,
                hi,
            ) {
                return None;
            }
            let va = match parse_digits_i32(s, lo, lo + c1) {
                None => {
                    return None;
                },
                Some(v) => v,
            };
            let vb = match parse_digits_i32(s, lo + c1 + 1, lo + c2) {
                None => {
                    return None;
                },
                Some(v) => v,
            };
            let vc = match parse_digits_i32(s, lo + c2 + 1, hi) {
                None => {
                    return None;
                },
                Some(v) => v,
            };
            Some(Sig::SigRangeStep(string_of_range(s, 0, b), va, vb, vc))
        },
    }
}

/// The `value'bits` split: the end of the value text and the declared bit
/// width.
fn quote_split_v(s: &Vec<char>) -> (r: Option<(usize, i32)>)
    ensures
        match r {
            Some((q, w)) => {
                &&& spec_quote_split(s@) == Option::Some((s@.subrange(0, q as int), w as int))
                &&& q < s@.len()
                &&& 0 <= w
            },
            None => spec_quote_split(s@) is None,
        },
{
    let n = s.len();
    let q = find_char_from(s, 0, '\'');
    if q == n {
        return None;
    }
    if !all_digits(s, q + 1, n) {
        return None;
    }
    match parse_digits_i32(s, q + 1, n) {
        None => None,
        Some(w) => Some((q, w)),
    }
}

pub fn quote_implicit_v(s: &Vec<char>) -> (r: Option<Sig>)
    ensures
        osig_view(r) == spec_quote_implicit(s@),
{
    match quote_split_v(s) {
        None => None,
        Some((q, w)) => {
            proof {
                assert(s@.subrange(0, q as int) =~= s@.subrange(0, q as int));
            }
            if !all_digits(s, 0, q) {
                return None;
            }
            match parse_radix_i32(s, 0, q, 10) {
                None => None,
                Some(v) => Some(Sig::SigQuote(v, w)),
            }
        },
    }
}

/// A prefixed quote spelling: `0<marker><digits>'bit` in the given radix.
fn quote_prefixed_v(s: &Vec<char>, marker: char, radix: u32) -> (r: Option<Sig>)
    requires
        (marker == 'b' && radix == 2) || (marker == 'x' && radix == 16) || (marker == 'd' && radix
            == 10),
    ensures
        marker == 'b' ==> osig_view(r) == spec_quote_bin(s@),
        marker == 'x' ==> osig_view(r) == spec_quote_hex(s@),
        marker == 'd' ==> osig_view(r) == spec_quote_dec(s@),
{
    match quote_split_v(s) {
        None => None,
        Some((q, w)) => {
            let ghost v = s@.subrange(0, q as int);
            if q < 3 || s[0] != '0' || s[1] != marker {
                return None;
            }
            proof {
                assert(v[0] == s@[0] && v[1] == s@[1]);
                assert(v.subrange(2, v.len() as int) =~= s@.subrange(2, q as int));
            }
            let digits_ok = if radix == 2 {
                all_bin_digits(s, 2, q)
            } else if radix == 16 {
                all_hex_digits(s, 2, q)
            } else {
                all_digits(s, 2, q)
            };
            if !digits_ok {
                return None;
            }
            match parse_radix_i32(s, 2, q, radix) {
                None => None,
                Some(val) => Some(Sig::SigQuote(val, w)),
            }
        },
    }
}

pub fn sig_quote_v(s: &Vec<char>) -> (r: Option<Sig>)
    ensures
        osig_view(r) == spec_sig_quote(s@),
{
    let r = quote_implicit_v(s);
    if r.is_some() {
        return r;
    }
    let r = quote_prefixed_v(s, 'b', 2);
    if r.is_some() {
        return r;
    }
    let r = quote_prefixed_v(s, 'x', 16);
    if r.is_some() {
        return r;
    }
    quote_prefixed_v(s, 'd', 10)
}

pub fn one_of_sig_v(s: &Vec<char>) -> (r: Option<Sig>)
    ensures
        osig_view(r) == spec_one_of_sig(s@),
{
    let r = sig_simple_v(s);
    if r.is_some() {
        return r;
    }
    let r = sig_hash_v(s);
    if r.is_some() {
        return r;
    }
    let r = sig_range_v(s);
    if r.is_some() {
        return r;
    }
    let r = sig_range_step_v(s);
    if r.is_some() {
        return r;
    }
    let r = sig_index_v(s);
    if r.is_some() {
        return r;
    }
    sig_quote_v(s)
}

pub fn sig_concat_v(s: &Vec<char>) -> (r: Option<Sig>)
    ensures
        osig_view(r) == spec_sig_concat(s@),
{
    let n = s.len();
    let first = find_char_from(s, 0, ',');
    if first == n {
        return None;
    }
    let mut sigs: Vec<Sig> = Vec::new();
    let mut pos: usize = 0;
    proof {
        assert(s@.subrange(0, n as int) =~= s@);
    }
    loop
        invariant
            pos <= n,
            n == s@.len(),
            find_from(s@, 0, ',') < n,
            spec_concat_parts(spec_split_commas(s@)) == match spec_concat_parts(
                spec_split_commas(s@.subrange(pos as int, n as int)),
            ) {
                Option::None => Option::None::<Seq<SigV>>,
                Option::Some(rest) => Option::Some(sig_views(sigs@) + rest),
            },
        decreases n - pos,
    {
        let ghost suffix = s@.subrange(pos as int, n as int);
        let c = find_char_from(s, pos, ',');
        proof {
            lemma_find_from(s@, pos as int, ',');
            assert(forall|k: int| 0 <= k < suffix.len() ==> suffix[k] == s@[pos + k]);
            lemma_find_from_unique(
                suffix,
                0,
                ',',
                if c < n {
                    c - pos
                } else {
                    suffix.len() as int
                },
            );
        }
        let piece_end = if c < n {
            c
        } else {
            n
        };
        let piece = sub_vec(s, pos, piece_end);
        let trimmed = trim_vec(&piece);
        let parsed = one_of_sig_v(&trimmed);
        proof {
            if c < n {
                assert(suffix.subrange(0, c - pos) =~= s@.subrange(pos as int, c as int));
            } else {
                assert(suffix =~= s@.subrange(pos as int, n as int));
            }
        }
        match parsed {
            None => {
                proof {
                    if c < n {
                        assert(spec_split_commas(suffix)[0] == suffix.subrange(0, c - pos));
                    } else {
                        assert(spec_split_commas(suffix)[0] == suffix);
                    }
                }
                return None;
            },
            Some(sig) => {
                let ghost sv = sig@;
                let ghost pre = sigs@;
                sigs.push(sig);
                proof {
                    assert(sigs@ == pre.push(sig));
                    lemma_sig_views_push(pre, sig);
                }
                if c < n {
                    proof {
                        let tail = suffix.subrange(c - pos + 1, suffix.len() as int);
                        assert(tail =~= s@.subrange(c + 1, n as int));
                        assert(spec_split_commas(suffix) == seq![suffix.subrange(0, c - pos)]
                            + spec_split_commas(tail));
                        assert(spec_split_commas(suffix).drop_first() =~= spec_split_commas(tail));
                        lemma_seq_assoc_push(sig_views(pre), sv, spec_concat_parts_rest(tail));
                    }
                    pos = c + 1;
                } else {
                    proof {
                        assert(spec_split_commas(suffix) == seq![suffix]);
                        assert(spec_split_commas(suffix).drop_first()
                            =~= Seq::<Seq<char>>::empty());
                        assert(spec_concat_parts(Seq::<Seq<char>>::empty()) == Option::Some(
                            Seq::<SigV>::empty(),
                        ));
                        assert(spec_one_of_sig(trim(suffix)) == Option::Some(sv));
                        assert(spec_concat_parts(spec_split_commas(suffix)) == Option::Some(
                            seq![sv] + Seq::<SigV>::empty(),
                        ));
                        assert(spec_concat_parts(spec_split_commas(s@)) == Option::Some(
                            sig_views(pre) + (seq![sv] + Seq::<SigV>::empty()),
                        ));
                        assert(sig_views(pre) + (seq![sv] + Seq::<SigV>::empty()) =~= sig_views(
                            sigs@,
                        ));
                        assert(spec_sig_concat(s@) == Option::Some(SigV::Concat(sig_views(sigs@))));
                    }
                    return Some(Sig::SigConcat(sigs));
                }
            },
        }
    }
}

/// The tail a successful `spec_concat_parts` would give; arbitrary when the
/// parts fail.
pub open spec fn spec_concat_parts_rest(s: Seq<char>) -> Seq<SigV> {
    match spec_concat_parts(spec_split_commas(s)) {
        Option::None => Seq::empty(),
        Option::Some(vs) => vs,
    }
}

/// Views distribute over push.
proof fn lemma_sig_views_push(v: Seq<Sig>, x: Sig)
    ensures
        sig_views(v.push(x)) =~= sig_views(v) + seq![sig_view(x)],
{
    lemma_sig_views(v.push(x));
    lemma_sig_views(v);
}

proof fn lemma_seq_assoc_push(a: Seq<SigV>, x: SigV, b: Seq<SigV>)
    ensures
        a + (seq![x] + b) =~= (a + seq![x]) + b,
{
}

pub fn parse_sig_v(s: &Vec<char>) -> (r: Option<Sig>)
    ensures
        osig_view(r) == spec_parse_sig(s@),
{
    let r = one_of_sig_v(s);
    if r.is_some() {
        return r;
    }
    sig_concat_v(s)
}

// ---------------------------------------------------------------------------
// The public string-level interface
// ---------------------------------------------------------------------------

/// Parse a simple identifier signal.
pub fn sig_simple(input: &str) -> (r: Option<Sig>)
    ensures
        osig_view(r) == spec_sig_simple(input@),
{
    sig_simple_v(&chars_of(input))
}

/// Parse a replication `name#count`.
pub fn sig_hash(input: &str) -> (r: Option<Sig>)
    ensures
        osig_view(r) == spec_sig_hash(input@),
{
    sig_hash_v(&chars_of(input))
}

/// Parse an indexed bus `name[idx]`.
pub fn sig_index(input: &str) -> (r: Option<Sig>)
    ensures
        osig_view(r) == spec_sig_index(input@),
{
    sig_index_v(&chars_of(input))
}

/// Parse a bus slice `name[hi:lo]`.
pub fn sig_range(input: &str) -> (r: Option<Sig>)
    ensures
        osig_view(r) == spec_sig_range(input@),
{
    sig_range_v(&chars_of(input))
}

/// Parse a strided bus slice `name[hi:lo:step]`.
pub fn sig_range_step(input: &str) -> (r: Option<Sig>)
    ensures
        osig_view(r) == spec_sig_range_step(input@),
{
    sig_range_step_v(&chars_of(input))
}

/// Parse a sized literal in the spelling the radix selects: implicit decimal
/// (empty prefix), binary `0b`, hexadecimal `0x` or declared decimal `0d`.
pub fn general_sig_quote(input: &str, prefix: &str, radix: u32) -> (r: Option<Sig>)
    requires
        (radix == 10 && prefix@ == Seq::<char>::empty()) || (radix == 2 && prefix@ == "0b"@) || (
        radix == 16 && prefix@ == "0x"@) || (radix == 10 && prefix@ == "0d"@),
    ensures
        radix == 10 && prefix@.len() == 0 ==> osig_view(r) == spec_quote_implicit(input@),
        radix == 2 ==> osig_view(r) == spec_quote_bin(input@),
        radix == 16 ==> osig_view(r) == spec_quote_hex(input@),
        radix == 10 && prefix@.len() != 0 ==> osig_view(r) == spec_quote_dec(input@),
{
    let cs = chars_of(input);
    proof {
        reveal_strlit("0b");
        reveal_strlit("0x");
    }
    if prefix.unicode_len() == 0 {
        quote_implicit_v(&cs)
    } else if radix == 2 {
        quote_prefixed_v(&cs, 'b', 2)
    } else if radix == 16 {
        quote_prefixed_v(&cs, 'x', 16)
    } else {
        quote_prefixed_v(&cs, 'd', 10)
    }
}

/// Parse a sized literal `digits'bits` in implicit decimal.
pub fn implicit_dec_sig_quote(input: &str) -> (r: Option<Sig>)
    ensures
        osig_view(r) == spec_quote_implicit(input@),
{
    quote_implicit_v(&chars_of(input))
}

/// Parse a sized binary literal `0b…'bits`.
pub fn bin_sig_quote(input: &str) -> (r: Option<Sig>)
    ensures
        osig_view(r) == spec_quote_bin(input@),
{
    quote_prefixed_v(&chars_of(input), 'b', 2)
}

/// Parse a sized hexadecimal literal `0x…'bits`.
pub fn hex_sig_quote(input: &str) -> (r: Option<Sig>)
    ensures
        osig_view(r) == spec_quote_hex(input@),
{
    quote_prefixed_v(&chars_of(input), 'x', 16)
}

/// Parse a sized declared-decimal literal `0d…'bits`.
pub fn dec_sig_quote(input: &str) -> (r: Option<Sig>)
    ensures
        osig_view(r) == spec_quote_dec(input@),
{
    quote_prefixed_v(&chars_of(input), 'd', 10)
}

/// Parse a sized literal in any of its four spellings.
pub fn sig_quote(input: &str) -> (r: Option<Sig>)
    ensures
        osig_view(r) == spec_sig_quote(input@),
{
    sig_quote_v(&chars_of(input))
}

/// Parse any single-signal form.
pub fn one_of_sig(input: &str) -> (r: Option<Sig>)
    ensures
        osig_view(r) == spec_one_of_sig(input@),
{
    one_of_sig_v(&chars_of(input))
}

/// Parse a comma-separated concatenation of single-signal forms.
pub fn sig_concat(input: &str) -> (r: Option<Sig>)
    ensures
        osig_view(r) == spec_sig_concat(input@),
{
    sig_concat_v(&chars_of(input))
}

/// Parse a full signal expression: any single-signal form, or else a
/// concatenation.
pub fn parse_sig(input: &str) -> (r: Option<Sig>)
    ensures
        osig_view(r) == spec_parse_sig(input@),
{
    parse_sig_v(&chars_of(input))
}

impl Sig {
    /// `parse_sig` as a `Result`, failing with a message naming the text.
    pub fn from_str(input: &str) -> (r: E<Sig>)
        ensures
            match r {
                Ok(sig) => spec_parse_sig(input@) == Option::Some(sig@),
                Err(b) => spec_parse_sig(input@) is None && b@ == seq![
                    "error parsing signal string: "@ + input@,
                ],
            },
    {
        match parse_sig(input) {
            Some(sig) => Ok(sig),
            None => {
                let mut msg = String::new();
                msg.append("error parsing signal string: ");
                msg.append(input);
                Err(Bail::new(msg))
            },
        }
    }
}

} // verus!

