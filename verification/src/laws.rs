//! General properties of the parsers, stated and proved once and for all:
//! numeric components ignore leading zeros, threshold scanning is
//! order-independent, and document parsing is a pure function of the text.

use vstd::prelude::*;

use crate::mod_test::find_thresh_from;
use crate::mod_test::spec_parse_document;
use crate::mod_test::spec_parse_thresholds;
use crate::text::digit_val;
use crate::text::digits_val;
use crate::text::has_prefix;
use crate::text::hex_val;
use crate::text::radix_val;

verus! {

/// Leading zeros never change the value of a digit string: the value of
/// `z + s` equals the value of `s` whenever `z` is all zeros.  This is why
/// components such as the count of `asdf#00123` parse to plain `123`.
pub proof fn lemma_leading_zeros_value(z: Seq<char>, s: Seq<char>)
    requires
        forall|i: int| 0 <= i < z.len() ==> #[trigger] z[i] == '0',
    ensures
        digits_val(z + s) == digits_val(s),
    decreases s.len(),
{
    if s.len() == 0 {
        assert(z + s =~= z);
        lemma_all_zeros_value(z);
    } else {
        assert((z + s).drop_last() =~= z + s.drop_last());
        assert((z + s).last() == s.last());
        lemma_leading_zeros_value(z, s.drop_last());
    }
}

/// A string of zeros denotes zero.
pub proof fn lemma_all_zeros_value(z: Seq<char>)
    requires
        forall|i: int| 0 <= i < z.len() ==> #[trigger] z[i] == '0',
    ensures
        digits_val(z) == 0,
    decreases z.len(),
{
    if z.len() > 0 {
        assert(z.last() == '0');
        assert(digit_val('0') == 0);
        lemma_all_zeros_value(z.drop_last());
    }
}

/// The same holds in any base the sized-literal grammar uses.
pub proof fn lemma_leading_zeros_radix_value(z: Seq<char>, s: Seq<char>, radix: int)
    requires
        forall|i: int| 0 <= i < z.len() ==> #[trigger] z[i] == '0',
    ensures
        radix_val(z + s, radix) == radix_val(s, radix),
    decreases s.len(),
{
    if s.len() == 0 {
        assert(z + s =~= z);
        lemma_all_zeros_radix_value(z, radix);
    } else {
        assert((z + s).drop_last() =~= z + s.drop_last());
        assert((z + s).last() == s.last());
        lemma_leading_zeros_radix_value(z, s.drop_last(), radix);
    }
}

pub proof fn lemma_all_zeros_radix_value(z: Seq<char>, radix: int)
    requires
        forall|i: int| 0 <= i < z.len() ==> #[trigger] z[i] == '0',
    ensures
        radix_val(z, radix) == 0,
    decreases z.len(),
{
    if z.len() > 0 {
        assert(z.last() == '0');
        assert(hex_val('0') == 0);
        lemma_all_zeros_radix_value(z.drop_last(), radix);
    }
}

/// Threshold parsing is order-independent: each of the four named values is
/// found by its own scan of the whole line, so the parse succeeds exactly
/// when every name has a binding somewhere in the line, and each slot holds
/// the value its own name's leftmost binding gives — wherever the four
/// bindings stand relative to one another and whatever text lies between
/// them.
pub proof fn lemma_thresholds_order_independent(line: Seq<char>)
    requires
        has_prefix(line, ".thresholds"@),
    ensures
        spec_parse_thresholds(line) is Ok <==> {
            &&& find_thresh_from(line, 0, "Voh"@) is Some
            &&& find_thresh_from(line, 0, "Vol"@) is Some
            &&& find_thresh_from(line, 0, "Vih"@) is Some
            &&& find_thresh_from(line, 0, "Vil"@) is Some
        },
        spec_parse_thresholds(line) matches Ok(t) ==> {
            &&& Option::Some(t.voh) == find_thresh_from(line, 0, "Voh"@)
            &&& Option::Some(t.vol) == find_thresh_from(line, 0, "Vol"@)
            &&& Option::Some(t.vih) == find_thresh_from(line, 0, "Vih"@)
            &&& Option::Some(t.vil) == find_thresh_from(line, 0, "Vil"@)
        },
{
}

/// Parsing is a pure function of the document text: equal texts parse to
/// equal documents (or to equal failures), so parsing the same text twice
/// yields structurally equal results.
pub proof fn lemma_parse_document_deterministic(t1: Seq<char>, t2: Seq<char>)
    requires
        t1 == t2,
    ensures
        spec_parse_document(t1) == spec_parse_document(t2),
{
}

} // verus!
