//! The data model of a parsed test description: signal expressions, the
//! directives' payloads, and the assembled document, each with its
//! mathematical view.

use vstd::prelude::*;

use crate::num::Dec;
use crate::num::DecV;

verus! {

// ---------------------------------------------------------------------------
// Signal expressions
// ---------------------------------------------------------------------------

/// A textual signal reference: a named wire, an indexed or sliced bus, a
/// replication, a sized numeric constant, or a concatenation of those.
#[derive(Debug, PartialEq)]
pub enum Sig {
    SigSimple(String),
    SigIndex(String, i32),
    SigHash(String, i32),
    SigRange(String, i32, i32),
    SigRangeStep(String, i32, i32, i32),
    SigQuote(i32, i32),
    SigConcat(Vec<Sig>),
}

/// The mathematical content of a `Sig`.
pub enum SigV {
    Simple(Seq<char>),
    Index(Seq<char>, int),
    Hashed(Seq<char>, int),
    Range(Seq<char>, int, int),
    RangeStep(Seq<char>, int, int, int),
    Quoted(int, int),
    Concat(Seq<SigV>),
}

pub open spec fn sig_view(s: Sig) -> SigV
    decreases s,
{
    match s {
        Sig::SigSimple(n) => SigV::Simple(n@),
        Sig::SigIndex(n, i) => SigV::Index(n@, i as int),
        Sig::SigHash(n, i) => SigV::Hashed(n@, i as int),
        Sig::SigRange(n, a, b) => SigV::Range(n@, a as int, b as int),
        Sig::SigRangeStep(n, a, b, c) => SigV::RangeStep(n@, a as int, b as int, c as int),
        Sig::SigQuote(v, w) => SigV::Quoted(v as int, w as int),
        Sig::SigConcat(v) => SigV::Concat(sig_views(v@)),
    }
}

/// The views of a sequence of `Sig`s, elementwise.
pub open spec fn sig_views(v: Seq<Sig>) -> Seq<SigV>
    decreases v,
{
    if v.len() == 0 {
        Seq::empty()
    } else {
        seq![sig_view(v[0])] + sig_views(v.drop_first())
    }
}

/// `sig_views` maps `sig_view` over the sequence.
pub proof fn lemma_sig_views(v: Seq<Sig>)
    ensures
        sig_views(v).len() == v.len(),
        forall|k: int| 0 <= k < v.len() ==> sig_views(v)[k] == sig_view(v[k]),
    decreases v.len(),
{
    if v.len() > 0 {
        lemma_sig_views(v.drop_first());
    }
}

impl View for Sig {
    type V = SigV;

    open spec fn view(&self) -> SigV {
        sig_view(*self)
    }
}

// ---------------------------------------------------------------------------
// Directive payloads
// ---------------------------------------------------------------------------

/// One `name=volts` binding of a `.power` line.
#[derive(Debug, PartialEq)]
pub struct Power {
    pub name: String,
    pub volts: Dec,
}

pub struct PowerV {
    pub name: Seq<char>,
    pub volts: DecV,
}

impl View for Power {
    type V = PowerV;

    open spec fn view(&self) -> PowerV {
        PowerV { name: self.name@, volts: self.volts@ }
    }
}

/// The four mandatory voltage levels of a `.thresholds` line.
#[derive(Debug, PartialEq)]
pub struct Thresholds {
    pub vol: Dec,
    pub vil: Dec,
    pub vih: Dec,
    pub voh: Dec,
}

pub struct ThresholdsV {
    pub vol: DecV,
    pub vil: DecV,
    pub vih: DecV,
    pub voh: DecV,
}

impl View for Thresholds {
    type V = ThresholdsV;

    open spec fn view(&self) -> ThresholdsV {
        ThresholdsV { vol: self.vol@, vil: self.vil@, vih: self.vih@, voh: self.voh@ }
    }
}

/// One named signal list of the group table.
#[derive(Debug, PartialEq)]
pub struct GroupEntry {
    pub name: String,
    pub sigs: Vec<Sig>,
}

/// The named signal groups of a document, in first-appearance order; a later
/// `.group` line with a known name replaces that name's signals in place.
#[derive(Debug, PartialEq)]
pub struct Groups {
    pub sig_set: Vec<GroupEntry>,
}

impl View for Groups {
    type V = Seq<(Seq<char>, Seq<SigV>)>;

    open spec fn view(&self) -> Seq<(Seq<char>, Seq<SigV>)> {
        self.sig_set@.map_values(|e: GroupEntry| (e.name@, sig_views(e.sigs@)))
    }
}

/// The simulation mode a `.mode` line selects.
#[derive(Debug, PartialEq)]
pub enum Mode {
    Device,
    Gate,
}

/// A simulated time span with its unit.
#[derive(Debug, PartialEq)]
pub enum Duration {
    MicroSecond(Dec),
    NanoSecond(Dec),
    PicoSecond(Dec),
    FemptoSecond(Dec),
    AttoSecond(Dec),
}

pub enum DurationV {
    Micro(DecV),
    Nano(DecV),
    Pico(DecV),
    Fempto(DecV),
    Atto(DecV),
}

impl View for Duration {
    type V = DurationV;

    open spec fn view(&self) -> DurationV {
        match *self {
            Duration::MicroSecond(d) => DurationV::Micro(d@),
            Duration::NanoSecond(d) => DurationV::Nano(d@),
            Duration::PicoSecond(d) => DurationV::Pico(d@),
            Duration::FemptoSecond(d) => DurationV::Fempto(d@),
            Duration::AttoSecond(d) => DurationV::Atto(d@),
        }
    }
}

/// One step of a `.cycle` procedure.
#[derive(Debug, PartialEq)]
pub enum Action {
    Assert(String),
    Deassert(String),
    Sample(String),
    Tran(Duration),
    SetSignal(Sig, Dec),
}

pub enum ActionV {
    Assert(Seq<char>),
    Deassert(Seq<char>),
    Sample(Seq<char>),
    Tran(DurationV),
    SetSignal(SigV, DecV),
}

impl View for Action {
    type V = ActionV;

    open spec fn view(&self) -> ActionV {
        match self {
            Action::Assert(n) => ActionV::Assert(n@),
            Action::Deassert(n) => ActionV::Deassert(n@),
            Action::Sample(n) => ActionV::Sample(n@),
            Action::Tran(d) => ActionV::Tran(d@),
            Action::SetSignal(s, v) => ActionV::SetSignal(s@, v@),
        }
    }
}

/// The ordered action sequence of a `.cycle` line.
#[derive(Debug, PartialEq)]
pub struct CycleLine(pub Vec<Action>);

impl View for CycleLine {
    type V = Seq<ActionV>;

    open spec fn view(&self) -> Seq<ActionV> {
        action_views(self.0@)
    }
}

/// The views of a sequence of strings, elementwise.
pub open spec fn str_views(v: Seq<String>) -> Seq<Seq<char>> {
    v.map_values(|t: String| t@)
}

/// The views of a sequence of actions, elementwise.
pub open spec fn action_views(v: Seq<Action>) -> Seq<ActionV> {
    v.map_values(|a: Action| a@)
}

/// The views of a sequence of power bindings, elementwise.
pub open spec fn power_views(v: Seq<Power>) -> Seq<PowerV> {
    v.map_values(|p: Power| p@)
}

/// The views of a sequence of test lines, elementwise.
pub open spec fn testline_views(v: Seq<TestLine>) -> Seq<TestLineV> {
    v.map_values(|t: TestLine| t@)
}

/// The views of a sequence of plot definitions, elementwise.
pub open spec fn plotdef_views(v: Seq<PlotDef>) -> Seq<PlotDefV> {
    v.map_values(|p: PlotDef| p@)
}

/// The views of a sequence of plot directives, elementwise.
pub open spec fn plotdir_views(v: Seq<PlotDirective>) -> Seq<PlotDirectiveV> {
    v.map_values(|p: PlotDirective| p@)
}

/// One bit position of a test-vector line.
#[derive(Debug, PartialEq)]
pub enum BinVal {
    L,
    H,
    X,
    Z,
    DontCare,
}

/// One test-vector line: its bits in source order and its trailing comment,
/// if any.
#[derive(Debug, PartialEq)]
pub struct TestLine {
    pub bin_vals: Vec<BinVal>,
    pub comment: Option<String>,
}

pub struct TestLineV {
    pub bin_vals: Seq<BinVal>,
    pub comment: Option<Seq<char>>,
}

impl View for TestLine {
    type V = TestLineV;

    open spec fn view(&self) -> TestLineV {
        TestLineV {
            bin_vals: self.bin_vals@,
            comment: match self.comment {
                Option::None => Option::None,
                Option::Some(c) => Option::Some(c@),
            },
        }
    }
}

/// A named list of plotting tags from a `.plotdef` line.
#[derive(Debug, PartialEq)]
pub struct PlotDef {
    pub name: String,
    pub tags: Vec<String>,
}

pub struct PlotDefV {
    pub name: Seq<char>,
    pub tags: Seq<Seq<char>>,
}

impl View for PlotDef {
    type V = PlotDefV;

    open spec fn view(&self) -> PlotDefV {
        PlotDefV { name: self.name@, tags: str_views(self.tags@) }
    }
}

/// A `.plot` request: a signal under one of the built-in styles, a bare
/// signal, or a signal under a `.plotdef`-declared style.
#[derive(Debug, PartialEq)]
pub enum PlotDirective {
    BinStyle(Sig),
    HexStyle(Sig),
    DecStyle(Sig),
    SimplePlot(Sig),
    PlotDefStyle(String, Sig),
}

pub enum PlotDirectiveV {
    Bin(SigV),
    Hex(SigV),
    Dec(SigV),
    Simple(SigV),
    DefStyle(Seq<char>, SigV),
}

impl View for PlotDirective {
    type V = PlotDirectiveV;

    open spec fn view(&self) -> PlotDirectiveV {
        match self {
            PlotDirective::BinStyle(s) => PlotDirectiveV::Bin(s@),
            PlotDirective::HexStyle(s) => PlotDirectiveV::Hex(s@),
            PlotDirective::DecStyle(s) => PlotDirectiveV::Dec(s@),
            PlotDirective::SimplePlot(s) => PlotDirectiveV::Simple(s@),
            PlotDirective::PlotDefStyle(n, s) => PlotDirectiveV::DefStyle(n@, s@),
        }
    }
}

/// A fully parsed test document.
#[derive(Debug, PartialEq)]
pub struct ModTest {
    pub power: Vec<Power>,
    pub thresholds: Option<Thresholds>,
    pub groups: Groups,
    pub mode: Option<Mode>,
    pub cycle_line: Option<CycleLine>,
    pub test_lines: Vec<TestLine>,
    pub plot_defs: Vec<PlotDef>,
    pub plot_dirs: Vec<PlotDirective>,
}

pub struct ModTestV {
    pub power: Seq<PowerV>,
    pub thresholds: Option<ThresholdsV>,
    pub groups: Seq<(Seq<char>, Seq<SigV>)>,
    pub mode: Option<Mode>,
    pub cycle_line: Option<Seq<ActionV>>,
    pub test_lines: Seq<TestLineV>,
    pub plot_defs: Seq<PlotDefV>,
    pub plot_dirs: Seq<PlotDirectiveV>,
}

impl View for ModTest {
    type V = ModTestV;

    open spec fn view(&self) -> ModTestV {
        ModTestV {
            power: power_views(self.power@),
            thresholds: match self.thresholds {
                Option::None => Option::None,
                Option::Some(t) => Option::Some(t@),
            },
            groups: self.groups@,
            mode: match self.mode {
                Option::None => Option::None,
                Option::Some(m) => Option::Some(m),
            },
            cycle_line: match self.cycle_line {
                Option::None => Option::None,
                Option::Some(c) => Option::Some(c@),
            },
            test_lines: testline_views(self.test_lines@),
            plot_defs: plotdef_views(self.plot_defs@),
            plot_dirs: plotdir_views(self.plot_dirs@),
        }
    }
}

} // verus!

pub use BinVal::DontCare;
pub use BinVal::H;
pub use BinVal::L;
pub use BinVal::X;
pub use BinVal::Z;
pub use Sig::SigConcat;
pub use Sig::SigHash;
pub use Sig::SigIndex;
pub use Sig::SigQuote;
pub use Sig::SigRange;
pub use Sig::SigRangeStep;
pub use Sig::SigSimple;
