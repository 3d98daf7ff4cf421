use jade::sig::bin_sig_quote;
use jade::sig::hex_sig_quote;
use jade::sig::implicit_dec_sig_quote;
use jade::sig::one_of_sig;
use jade::sig::sig_concat;
use jade::sig::sig_hash;
use jade::sig::sig_index;
use jade::sig::sig_quote;
use jade::sig::sig_range;
use jade::sig::sig_range_step;
use jade::sig::sig_simple;
use jade::types::SigConcat;
use jade::types::SigHash;
use jade::types::SigIndex;
use jade::types::SigQuote;
use jade::types::SigRange;
use jade::types::SigRangeStep;
use jade::types::SigSimple;

#[test]
fn sig_simple1() {
    let expect = SigSimple("ABC123".to_string());
    let got = sig_simple("ABC123").unwrap();
    assert_eq!(expect, got);
}

#[test]
fn sig_simple2() {
    let expect = SigSimple("_ABC123".to_string());
    let got = sig_simple("_ABC123").unwrap();
    assert_eq!(expect, got);
}

#[test]
fn sig_simple3() {
    let got = sig_simple("#$%^9_ABC123");
    let expect = None;
    assert_eq!(got, expect);
}

#[test]
fn sig_hash1() {
    let got = sig_hash("A#32");
    let expect = Some(SigHash("A".to_string(), 32));
    assert_eq!(got, expect);
}

#[test]
fn sig_hash2() {
    let got = sig_hash("asdf#32");
    let expect = Some(SigHash("asdf".to_string(), 32));
    assert_eq!(got, expect);
}

#[test]
fn sig_hash3() {
    let got = sig_hash("asdf#00123");
    let expect = Some(SigHash("asdf".to_string(), 123));
    assert_eq!(got, expect);
}

#[test]
fn sig_hash4() {
    let got = sig_hash("_asdf456#123");
    let expect = Some(SigHash("_asdf456".to_string(), 123));
    assert_eq!(got, expect);
}

#[test]
fn sig_hash5() {
    let got = sig_hash("9_asdf456#123");
    let expect = None;
    assert_eq!(got, expect);
}

#[test]
fn sig_index2() {
    let got = sig_index("asdf[32]");
    let expect = Some(SigIndex("asdf".to_string(), 32));
    assert_eq!(got, expect);
}

#[test]
fn sig_index3() {
    let got = sig_index("asdf[00123]");
    let expect = Some(SigIndex("asdf".to_string(), 123));
    assert_eq!(got, expect);
}

#[test]
fn sig_index4() {
    let got = sig_index("_asdf456[123]");
    let expect = Some(SigIndex("_asdf456".to_string(), 123));
    assert_eq!(got, expect);
}

#[test]
fn sig_index5() {
    let got = sig_index("9_asdf456[123]");
    let expect = None;
    assert_eq!(got, expect);
}

#[test]
fn sig_range2() {
    let got = sig_range("asdf[32:12]");
    let expect = Some(SigRange("asdf".to_string(), 32, 12));
    assert_eq!(got, expect);
}

#[test]
fn sig_range3() {
    let got = sig_range("asdf[00123:56]");
    let expect = Some(SigRange("asdf".to_string(), 123, 56));
    assert_eq!(got, expect);
}

#[test]
fn sig_range4() {
    let got = sig_range("_asdf456[123:0]");
    let expect = Some(SigRange("_asdf456".to_string(), 123, 0));
    assert_eq!(got, expect);
}

#[test]
fn sig_range5() {
    let got = sig_range("9_asdf456[123:23]");
    let expect = None;
    assert_eq!(got, expect);
}

#[test]
fn sig_range_step2() {
    let got = sig_range_step("asdf[32:12:2]");
    let expect = Some(SigRangeStep("asdf".to_string(), 32, 12, 2));
    assert_eq!(got, expect);
}

#[test]
fn sig_range_step3() {
    let got = sig_range_step("asdf[00123:56:4]");
    let expect = Some(SigRangeStep("asdf".to_string(), 123, 56, 4));
    assert_eq!(got, expect);
}

#[test]
fn sig_range_step4() {
    let got = sig_range_step("_asdf456[123:0:5]");
    let expect = Some(SigRangeStep("_asdf456".to_string(), 123, 0, 5));
    assert_eq!(got, expect);
}

#[test]
fn sig_range_step5() {
    let got = sig_range_step("9_asdf456[123:23:6]");
    let expect = None;
    assert_eq!(got, expect);
}

#[test]
fn sig_quote1() {
    let got = bin_sig_quote("0b1010'4");
    let expect = Some(SigQuote(10, 4));
    assert_eq!(got, expect);
}

#[test]
fn sig_quote11() {
    let got = sig_quote("0b1010'4");
    let expect = Some(SigQuote(10, 4));
    assert_eq!(got, expect);
}

#[test]
fn sig_quote2() {
    let got = hex_sig_quote("0xFF'4");
    let expect = Some(SigQuote(0xFF, 4));
    assert_eq!(got, expect);
}

#[test]
fn sig_quote3() {
    let got = implicit_dec_sig_quote("10'4");
    let expect = Some(SigQuote(10, 4));
    assert_eq!(got, expect);
}

#[test]
fn sig_quote4() {
    let got = sig_quote("10'4");
    let expect = Some(SigQuote(10, 4));
    assert_eq!(got, expect);
}

#[test]
fn sig_quote5() {
    let got = sig_quote("0x12'4");
    let expect = Some(SigQuote(0x12, 4));
    assert_eq!(got, expect);
}

#[test]
fn sig_concat1() {
    let got = sig_concat("0x12'4, 0x12'4");
    let expect = Some(SigConcat(vec![SigQuote(0x12, 4), SigQuote(0x12, 4)]));
    assert_eq!(got, expect);
}

#[test]
fn sig_concat2() {
    let got = sig_concat("0x12'4, _asdf456[123:0:5]");
    let expect = Some(SigConcat(vec![
        SigQuote(0x12, 4),
        sig_range_step("_asdf456[123:0:5]").unwrap(),
    ]));
    assert_eq!(got, expect);
}

#[test]
fn sig_concat3() {
    let got = one_of_sig("0x12'4, _asdf456[123:0:5]");
    let expect = None;
    assert_eq!(got, expect);
}
