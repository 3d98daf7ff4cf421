use jade::num::Dec;
use jade::sig::parse_sig;
use jade::types::Action;
use jade::types::CycleLine;
use jade::types::Duration;
use jade::types::DontCare;
use jade::types::H;
use jade::types::L;
use jade::types::Mode;
use jade::types::ModTest;
use jade::types::PlotDef;
use jade::types::PlotDirective;
use jade::types::Power;
use jade::types::TestLine;
use jade::types::Thresholds;

#[test]
fn parse_cycle_line_1() {
    let line = ".cycle assert inputs";
    match ModTest::parse_cycle_line(line) {
        Ok(CycleLine(xs)) => assert_eq!(xs, vec![Action::Assert("inputs".to_string())]),
        Err(berr) => panic!("{:?}", berr),
    }
}

#[test]
fn parse_cycle_line_2() {
    let line = ".cycle tran 99.5n";
    match ModTest::parse_cycle_line(line) {
        Ok(CycleLine(xs)) => {
            assert_eq!(
                xs,
                vec![Action::Tran(Duration::NanoSecond(Dec::new(false, vec![9, 9, 5], -1)))]
            )
        }
        Err(berr) => panic!("{:?}", berr),
    }
}

#[test]
fn parse_cycle_line_3() {
    let line = ".cycle assert inputs tran 99n sample outputs tran 1n";
    match ModTest::parse_cycle_line(line) {
        Ok(CycleLine(xs)) => assert_eq!(
            xs,
            vec![
                Action::Assert("inputs".to_string()),
                Action::Tran(Duration::NanoSecond(Dec::from_int(99))),
                Action::Sample("outputs".to_string()),
                Action::Tran(Duration::NanoSecond(Dec::from_int(1))),
            ]
        ),
        Err(berr) => panic!("{:?}", berr),
    }
}

#[test]
fn parse_cycle_line_4() {
    let line = ".cycle tran 1n assert A sample B assert C tran 2n";
    match ModTest::parse_cycle_line(line) {
        Ok(CycleLine(xs)) => assert_eq!(
            xs,
            vec![
                Action::Tran(Duration::NanoSecond(Dec::from_int(1))),
                Action::Assert("A".to_string()),
                Action::Sample("B".to_string()),
                Action::Assert("C".to_string()),
                Action::Tran(Duration::NanoSecond(Dec::from_int(2))),
            ]
        ),
        Err(berr) => panic!("{:?}", berr),
    }
}

#[test]
fn parse_cycle_line_5() {
    let line = ".cycle CLK=1";
    match ModTest::parse_cycle_line(line) {
        Ok(CycleLine(xs)) => {
            let sig = parse_sig("CLK").unwrap();
            assert_eq!(xs, vec![Action::SetSignal(sig, Dec::from_int(1))]);
        }
        Err(berr) => panic!("{:?}", berr),
    }
}

#[test]
fn parse_plot_directive1() {
    let got = ModTest::parse_plot_directive(".plot X(Y[31:0])");
    let sig = parse_sig("Y[31:0]").unwrap();
    let expect = PlotDirective::HexStyle(sig);
    assert_eq!(got, Ok(expect));
}

#[test]
fn parse_plot_directive2() {
    let got = ModTest::parse_plot_directive(".plot clk");
    let sig = parse_sig("clk").unwrap();
    let expect = PlotDirective::SimplePlot(sig);
    assert_eq!(got, Ok(expect));
}

#[test]
fn parse_plot_def() {
    let got = ModTest::parse_plot_def(".plotdef op ADD SUB MUL");
    let expect = PlotDef {
        name: "op".to_string(),
        tags: vec!["ADD".to_string(), "SUB".to_string(), "MUL".to_string()],
    };
    assert_eq!(got, Ok(expect));
}

#[test]
fn parse_testline1() {
    let got = ModTest::parse_test_line("HHH LLL 110 --- // last three don't care");
    let bin_vals = vec![H, H, H, L, L, L, H, H, L, DontCare, DontCare, DontCare];
    let comment = Some(" last three don't care".to_string());
    let expect = Ok(TestLine { bin_vals, comment });
    assert_eq!(got, expect);
}

#[test]
fn parse_testline2() {
    let got = ModTest::parse_test_line("HHH LLL 110 ---");
    let bin_vals = vec![H, H, H, L, L, L, H, H, L, DontCare, DontCare, DontCare];
    let comment = None;
    let expect = Ok(TestLine { bin_vals, comment });
    assert_eq!(got, expect);
}

#[test]
fn parse_mode1() {
    let got = ModTest::parse_mode(".mode    gate");
    let expect = Ok(Mode::Gate);
    assert_eq!(got, expect);
}

#[test]
fn parse_mode2() {
    let got = ModTest::parse_mode(".mode device");
    let expect = Ok(Mode::Device);
    assert_eq!(got, expect);
}

#[test]
fn parse_mode3() {
    match ModTest::parse_mode(".mode dvice") {
        Err(b) => {
            let msg = format!("Unknown mode: {}", "dvice");
            assert_eq!(b.msg, msg);
        }
        _ => panic!("this test should fail"),
    }
}

#[test]
fn parse_one_group1() {
    let got = ModTest::parse_one_group(".group inputs BFN[3:0] A[31:0] B[31:0]");
    let expect = Ok((
        "inputs".to_string(),
        vec![
            parse_sig("BFN[3:0]").unwrap(),
            parse_sig("A[31:0]").unwrap(),
            parse_sig("B[31:0]").unwrap(),
        ],
    ));
    assert_eq!(got, expect);
}

#[test]
fn parse_threshold1() {
    let got = ModTest::parse_thresholds(".thresholds Vol=0 Vil=0.1 Vih=0.9 Voh=1");
    let expect = Ok(Thresholds {
        vol: Dec::from_int(0),
        vil: Dec::new(false, vec![1], -1),
        vih: Dec::new(false, vec![9], -1),
        voh: Dec::from_int(1),
    });
    assert_eq!(got, expect);
}

#[test]
fn parse_threshold2() {
    match ModTest::parse_thresholds(".thresholds Vol=0.0 Vil=0.1 Vih=0.9") {
        Err(b) => {
            assert_eq!(b.msg, "No Voh found in threshold line");
        }
        _ => panic!("Expecting error got good value"),
    }
}

#[test]
fn parse_power2() {
    let got = ModTest::parse_power(".power Vdd=1.0");
    let expect = vec![Power { name: "Vdd".to_string(), volts: Dec::from_int(1) }];
    assert_eq!(got, Ok(expect));
}

#[test]
fn parse_power3() {
    let got = ModTest::parse_power(".power Vdd=1.0 Foo=1.234");
    let expect = vec![
        Power { name: "Vdd".to_string(), volts: Dec::from_int(1) },
        Power { name: "Foo".to_string(), volts: Dec::new(false, vec![1, 2, 3, 4], -3) },
    ];
    assert_eq!(got, Ok(expect));
}
