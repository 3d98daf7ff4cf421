use jade::num::Dec;
use jade::sig::parse_sig;
use jade::sig::sig_hash;
use jade::sig::sig_quote;
use jade::types::Action;
use jade::types::CycleLine;
use jade::types::DontCare;
use jade::types::Duration;
use jade::types::GroupEntry;
use jade::types::H;
use jade::types::L;
use jade::types::Mode;
use jade::types::ModTest;
use jade::types::PlotDirective;
use jade::types::SigConcat;
use jade::types::SigHash;
use jade::types::SigQuote;
use jade::types::SigRangeStep;
use jade::types::SigSimple;
use jade::types::X;
use jade::types::Z;

#[test]
fn document_missing_voh_fails() {
    match ModTest::from_str(".thresholds Vol=0.0 Vil=0.1 Vih=0.9") {
        Err(b) => assert_eq!(b.msg, "No Voh found in threshold line"),
        Ok(_) => panic!("expected an error"),
    }
}

#[test]
fn thresholds_any_order_any_text() {
    let a = ModTest::parse_thresholds(".thresholds Vol=0 Vil=0.1 Vih=0.9 Voh=1").unwrap();
    let b = ModTest::parse_thresholds(".thresholds Voh=1 junk Vih=0.9 ** Vil=0.1 Vol=0").unwrap();
    assert_eq!(a, b);
    assert_eq!(a.voh, Dec::from_int(1));
    assert_eq!(a.vil, Dec::new(false, vec![1], -1));
}

#[test]
fn signal_hash_leading_zeros() {
    assert_eq!(parse_sig("asdf#00123"), Some(SigHash("asdf".to_string(), 123)));
    assert_eq!(sig_hash("asdf#123"), sig_hash("asdf#0000123"));
}

#[test]
fn signal_concat_needs_comma() {
    let got = parse_sig("0x12'4, _asdf456[123:0:5]");
    let expect = Some(SigConcat(vec![
        SigQuote(0x12, 4),
        SigRangeStep("_asdf456".to_string(), 123, 0, 5),
    ]));
    assert_eq!(got, expect);
    assert_eq!(parse_sig("0x12'4 _asdf456[123:0:5]"), None);
}

#[test]
fn test_line_mixed_letters_and_digits() {
    let got = ModTest::parse_test_line("HHH LLL 110 --- // last three don't care").unwrap();
    assert_eq!(
        got.bin_vals,
        vec![H, H, H, L, L, L, H, H, L, DontCare, DontCare, DontCare]
    );
    assert_eq!(got.comment, Some(" last three don't care".to_string()));
}

#[test]
fn test_line_x_and_z() {
    let got = ModTest::parse_test_line("XZ01").unwrap();
    assert_eq!(got.bin_vals, vec![X, Z, L, H]);
    assert_eq!(got.comment, None);
}

#[test]
fn test_line_empty_is_fine() {
    let got = ModTest::parse_test_line("   ").unwrap();
    assert_eq!(got.bin_vals, vec![]);
}

#[test]
fn test_line_bad_char() {
    match ModTest::parse_test_line("HH7") {
        Err(b) => assert_eq!(
            b.msg,
            "Bad value in test line, expecting L, H, X, Z or -, got: '7'"
        ),
        Ok(_) => panic!("expected an error"),
    }
}

#[test]
fn cycle_order_preserved() {
    let got = ModTest::parse_cycle_line(".cycle assert inputs tran 99n sample outputs tran 1n");
    let expect = CycleLine(vec![
        Action::Assert("inputs".to_string()),
        Action::Tran(Duration::NanoSecond(Dec::from_int(99))),
        Action::Sample("outputs".to_string()),
        Action::Tran(Duration::NanoSecond(Dec::from_int(1))),
    ]);
    assert_eq!(got, Ok(expect));
}

#[test]
fn cycle_set_signal() {
    let got = ModTest::parse_cycle_line(".cycle CLK=1");
    let expect = CycleLine(vec![Action::SetSignal(
        SigSimple("CLK".to_string()),
        Dec::from_int(1),
    )]);
    assert_eq!(got, Ok(expect));
}

#[test]
fn cycle_deassert_and_units() {
    let got = ModTest::parse_cycle_line(".cycle deassert g tran 2u tran 3p tran 4f tran 5a tran 6U");
    let expect = CycleLine(vec![
        Action::Deassert("g".to_string()),
        Action::Tran(Duration::MicroSecond(Dec::from_int(2))),
        Action::Tran(Duration::PicoSecond(Dec::from_int(3))),
        Action::Tran(Duration::FemptoSecond(Dec::from_int(4))),
        Action::Tran(Duration::AttoSecond(Dec::from_int(5))),
        Action::Tran(Duration::MicroSecond(Dec::from_int(6))),
    ]);
    assert_eq!(got, Ok(expect));
}

#[test]
fn cycle_unknown_unit_letter() {
    match ModTest::parse_cycle_line(".cycle tran 5x") {
        Err(b) => {
            assert_eq!(b.msg, "Couldn't parse .cycle directive");
            let inner = b.more.expect("expected a chained cause");
            assert_eq!(inner.msg, "Unknown duration unit in .cycle: x");
            let rest = inner.more.expect("expected the unparsed remainder");
            assert_eq!(rest.msg, "unparsed remainder: tran 5x");
        }
        Ok(_) => panic!("expected an error"),
    }
}

#[test]
fn cycle_unknown_action_chains() {
    match ModTest::parse_cycle_line(".cycle frobnicate") {
        Err(b) => {
            assert_eq!(b.msg, "Couldn't parse .cycle directive");
            let inner = b.more.expect("expected a chained cause");
            assert_eq!(inner.msg, "unknown action in .cycle: frobnicate");
        }
        Ok(_) => panic!("expected an error"),
    }
}

#[test]
fn cycle_bad_signal_before_equals() {
    match ModTest::parse_cycle_line(".cycle 9bad=1") {
        Err(b) => {
            let inner = b.more.expect("expected a chained cause");
            assert_eq!(inner.msg, "bad signal found: 9bad=1");
        }
        Ok(_) => panic!("expected an error"),
    }
}

#[test]
fn cycle_missing_number_after_equals() {
    match ModTest::parse_cycle_line(".cycle CLK=") {
        Err(b) => {
            let inner = b.more.expect("expected a chained cause");
            assert_eq!(inner.msg, "What's going on here?: CLK=");
        }
        Ok(_) => panic!("expected an error"),
    }
}

#[test]
fn cycle_empty_remainder() {
    let got = ModTest::parse_cycle_line(".cycle");
    assert_eq!(got, Ok(CycleLine(vec![])));
}

#[test]
fn power_scans_whole_line() {
    let got = ModTest::parse_power(".power junk Vdd = 3.3 more Vss=0 trailing").unwrap();
    assert_eq!(got.len(), 2);
    assert_eq!(got[0].name, "Vdd");
    assert_eq!(got[0].volts, Dec::new(false, vec![3, 3], -1));
    assert_eq!(got[1].name, "Vss");
    assert_eq!(got[1].volts, Dec::from_int(0));
}

#[test]
fn power_no_bindings_is_empty() {
    let got = ModTest::parse_power(".power").unwrap();
    assert_eq!(got, vec![]);
}

#[test]
fn power_wrong_prefix() {
    match ModTest::parse_power("xyz") {
        Err(b) => assert_eq!(b.msg, "not power line: todo improve this message"),
        Ok(_) => panic!("expected an error"),
    }
}

#[test]
fn group_replaces_on_same_name() {
    let doc = ".group a x y\n.group b z\n.group a w";
    let mt = ModTest::from_str(doc).unwrap();
    let gs = &mt.groups.sig_set;
    assert_eq!(gs.len(), 2);
    assert_eq!(
        gs[0],
        GroupEntry { name: "a".to_string(), sigs: vec![SigSimple("w".to_string())] }
    );
    assert_eq!(
        gs[1],
        GroupEntry { name: "b".to_string(), sigs: vec![SigSimple("z".to_string())] }
    );
}

#[test]
fn group_bad_name() {
    match ModTest::parse_one_group(".group 9bad x") {
        Err(b) => assert_eq!(
            b.msg,
            ".group requires an a1pha_9umeric name first, got: 9bad"
        ),
        Ok(_) => panic!("expected an error"),
    }
}

#[test]
fn group_bad_signal() {
    match ModTest::parse_one_group(".group ok 9bad") {
        Err(b) => assert_eq!(b.msg, ".group contains a bad signal name: 9bad"),
        Ok(_) => panic!("expected an error"),
    }
}

#[test]
fn group_no_tokens() {
    match ModTest::parse_one_group(".group") {
        Err(b) => assert_eq!(b.msg, ".group requires an a1pha_9umeric name first, got: "),
        Ok(_) => panic!("expected an error"),
    }
}

#[test]
fn mode_wrong_prefix() {
    match ModTest::parse_mode("gate") {
        Err(b) => assert_eq!(b.msg, "not a mode directive"),
        Ok(_) => panic!("expected an error"),
    }
}

#[test]
fn plotdef_bad_identifier() {
    match ModTest::parse_plot_def(".plotdef 9bad x") {
        Err(b) => assert_eq!(
            b.msg,
            ".plotdef directive identifier must be an alphanumeric, got: '9bad'"
        ),
        Ok(_) => panic!("expected an error"),
    }
}

#[test]
fn plot_styles() {
    let sig = parse_sig("A[3:0]").unwrap();
    assert_eq!(
        ModTest::parse_plot_directive(".plot B(A[3:0])"),
        Ok(PlotDirective::BinStyle(sig))
    );
    let sig = parse_sig("A[3:0]").unwrap();
    assert_eq!(
        ModTest::parse_plot_directive(".plot D(A[3:0])"),
        Ok(PlotDirective::DecStyle(sig))
    );
    let sig = parse_sig("clk").unwrap();
    assert_eq!(
        ModTest::parse_plot_directive(".plot ramp(clk)"),
        Ok(PlotDirective::PlotDefStyle("ramp".to_string(), sig))
    );
}

#[test]
fn plot_bad_inner_signal_chains() {
    match ModTest::parse_plot_directive(".plot B(9bad!)") {
        Err(b) => {
            assert_eq!(b.msg, "Bad signal name in .plot directive");
            let inner = b.more.expect("expected a chained cause");
            assert_eq!(inner.msg, "error parsing signal string: 9bad!");
        }
        Ok(_) => panic!("expected an error"),
    }
}

#[test]
fn plot_nothing_plottable() {
    match ModTest::parse_plot_directive(".plot 123 456") {
        Err(b) => assert_eq!(b.msg, "Bad signal found in .plot directive: 123 456"),
        Ok(_) => panic!("expected an error"),
    }
}

#[test]
fn full_document_assembles() {
    let doc = "\
.power Vdd=1
.thresholds Vol=0 Vil=0.1 Vih=0.9 Voh=1

// a comment line
.group inputs A[3:0] Ci
.group outputs vout Co

.mode gate

.cycle assert inputs tran 99n sample outputs tran 1n

00000 LLLLL
11111 LLLLH

.plot D(Ci)
.plotdef op ADD SUB
";
    let mt = ModTest::from_str(doc).unwrap();
    assert_eq!(mt.power.len(), 1);
    assert_eq!(mt.power[0].name, "Vdd");
    assert!(mt.thresholds.is_some());
    assert_eq!(mt.groups.sig_set.len(), 2);
    assert_eq!(mt.mode, Some(Mode::Gate));
    let cl = mt.cycle_line.expect("cycle line");
    assert_eq!(cl.0.len(), 4);
    assert_eq!(mt.test_lines.len(), 2);
    assert_eq!(mt.test_lines[1].bin_vals, vec![H, H, H, H, H, L, L, L, L, H]);
    assert_eq!(mt.plot_dirs.len(), 1);
    assert_eq!(mt.plot_defs.len(), 1);
    assert_eq!(mt.plot_defs[0].name, "op");
}

#[test]
fn document_idempotent() {
    let doc = ".power Vdd=1\n.mode device\nHHLL // bits\n.cycle CLK=0";
    let a = ModTest::from_str(doc).unwrap();
    let b = ModTest::from_str(doc).unwrap();
    assert_eq!(a, b);
}

#[test]
fn numbers_normalize_exactly() {
    // the same decimal value in different spellings compares equal
    let a = ModTest::parse_power(".power a=0.5 b=5e-1 c=1e3 d=1000 e=0 f=0.0").unwrap();
    assert_eq!(a[0].volts, a[1].volts);
    assert_eq!(a[2].volts, a[3].volts);
    assert_eq!(a[4].volts, a[5].volts);
    assert_eq!(a[2].volts, Dec { neg: false, digits: vec![1], exp: 3 });
}

#[test]
fn quote_value_too_large_is_rejected() {
    assert_eq!(sig_quote("0xFFFFFFFF'4"), None);
    assert_eq!(sig_hash("a#99999999999"), None);
}

#[test]
fn signal_from_str_error_message() {
    match jade::types::Sig::from_str("9bad") {
        Err(b) => assert_eq!(b.msg, "error parsing signal string: 9bad"),
        Ok(_) => panic!("expected an error"),
    }
}

#[test]
fn cycle_render_round_trip() {
    let cl = CycleLine(vec![
        Action::Assert("inputs".to_string()),
        Action::Tran(Duration::NanoSecond(Dec::new(false, vec![9, 9, 5], -1))),
        Action::SetSignal(
            SigConcat(vec![
                SigQuote(0x12, 4),
                SigRangeStep("_asdf456".to_string(), 123, 0, 5),
            ]),
            Dec::from_int(1),
        ),
        Action::Sample("outputs".to_string()),
        Action::Deassert("x".to_string()),
    ]);
    let text = jade::render::render_cycle_line(&cl);
    assert_eq!(
        text,
        ".cycle assert inputs tran 995e-1n 18'4, _asdf456[123:0:5]=1 sample outputs deassert x"
    );
    let back = ModTest::parse_cycle_line(&text).unwrap();
    assert_eq!(back, cl);
}

#[test]
fn cycle_render_round_trip_empty() {
    let cl = CycleLine(vec![]);
    let text = jade::render::render_cycle_line(&cl);
    assert_eq!(text, ".cycle");
    let back = ModTest::parse_cycle_line(&text).unwrap();
    assert_eq!(back, cl);
}

#[test]
fn mode_prefix_quirk() {
    // the dispatcher only checks the directive prefix, so text glued to it
    // still parses
    assert_eq!(ModTest::parse_mode(".modegate"), Ok(Mode::Gate));
}

#[test]
fn plot_without_space_is_a_test_line() {
    // ".plot" without the trailing space is not a plot directive; the line
    // falls through to the test-vector parser, which rejects the dot
    match ModTest::from_str(".plot") {
        Err(b) => assert_eq!(
            b.msg,
            "Bad value in test line, expecting L, H, X, Z or -, got: '.'"
        ),
        Ok(_) => panic!("expected an error"),
    }
}

#[test]
fn plotdef_no_tokens() {
    match ModTest::parse_plot_def(".plotdef ") {
        Err(b) => assert_eq!(
            b.msg,
            ".plotdef directive identifier must be an alphanumeric, got: ''"
        ),
        Ok(_) => panic!("expected an error"),
    }
}

#[test]
fn quote_width_any_digits() {
    assert_eq!(parse_sig("10'04"), Some(SigQuote(10, 4)));
    assert_eq!(parse_sig("10'23"), Some(SigQuote(10, 23)));
    assert_eq!(sig_quote("0b1010'16"), Some(SigQuote(10, 16)));
    assert_eq!(sig_quote("10'4"), sig_quote("10'0000004"));
    assert_eq!(sig_quote("1'99999999999"), None);
    assert_eq!(sig_quote("1'"), None);
}

#[test]
fn cycle_render_round_trip_wide_width() {
    let cl = CycleLine(vec![Action::SetSignal(SigQuote(5, 23), Dec::from_int(0))]);
    let text = jade::render::render_cycle_line(&cl);
    assert_eq!(text, ".cycle 5'23=0");
    let back = ModTest::parse_cycle_line(&text).unwrap();
    assert_eq!(back, cl);
}
