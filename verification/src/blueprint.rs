//! Descriptions of strategies: what is wired, what may be combined, and in which
//! order a strategy is built from them.
//!
//! A description holds the signals and sources that it was given, of whatever kind
//! they are, and hands them out again in the steps that build the strategy.

use vstd::prelude::*;

use crate::backtest::RunReport;
use crate::number::Real;
use crate::orders;
use crate::orders::{OrderKind, Side, Size};
use crate::sorting::reversed;
use crate::text;

verus! {

// ---------------------------------------------------------------------------
// Steps
// ---------------------------------------------------------------------------

/// One step of building a strategy. A side without an exit never exits.
#[derive(Debug)]
pub enum Step<G, N> {
    LongOn { enter: G, exit: Option<G> },
    ShortOn { enter: G, exit: Option<G> },
    LongStop(N),
    LongTarget(N),
    ShortStop(N),
    ShortTarget(N),
    ScoredBy(N),
    SizedBy(N),
    Select(BasketSelection),
    BalanceSides(bool),
    RebalanceOn(G),
    /// Exactly these symbols, each of which must be there.
    AllOf(Vec<String>),
    /// Those of these symbols that are there.
    AnyOf(Vec<String>),
}

/// The entry and the exit of one side.
#[derive(Debug)]
pub struct Wiring<G> {
    pub enter: G,
    pub exit: Option<G>,
}

/// The symbols that a strategy is restricted to.
#[derive(Debug)]
pub struct DeclaredUniverse {
    /// Whether every symbol must be there.
    pub strict: bool,
    pub symbols: Vec<String>,
}

/// The step that wires the long side, where it is wired.
pub open spec fn long_step<G, N>(w: Option<Wiring<G>>) -> Seq<Step<G, N>> {
    match w {
        Some(w) => seq![Step::LongOn { enter: w.enter, exit: w.exit }],
        None => seq![],
    }
}

/// The step that wires the short side, where it is wired.
pub open spec fn short_step<G, N>(w: Option<Wiring<G>>) -> Seq<Step<G, N>> {
    match w {
        Some(w) => seq![Step::ShortOn { enter: w.enter, exit: w.exit }],
        None => seq![],
    }
}

/// The step that sizes positions, where one is wired.
pub open spec fn sizing_step<G, N>(n: Option<N>) -> Seq<Step<G, N>> {
    match n {
        Some(n) => seq![Step::SizedBy(n)],
        None => seq![],
    }
}

/// The step that wires the rebalance gate, where one is wired.
pub open spec fn rebalance_step<G, N>(g: Option<G>) -> Seq<Step<G, N>> {
    match g {
        Some(g) => seq![Step::RebalanceOn(g)],
        None => seq![],
    }
}

/// The step that restricts the symbols, where they are restricted.
pub open spec fn universe_step<G, N>(u: Option<DeclaredUniverse>) -> Seq<Step<G, N>> {
    match u {
        Some(u) => if u.strict {
            seq![Step::AllOf(u.symbols)]
        } else {
            seq![Step::AnyOf(u.symbols)]
        },
        None => seq![],
    }
}

fn push_long<G, N>(steps: &mut Vec<Step<G, N>>, w: Option<Wiring<G>>)
    ensures
        final(steps)@ == old(steps)@ + long_step::<G, N>(w),
{
    let ghost was = steps@;
    match w {
        Some(w) => {
            steps.push(Step::LongOn { enter: w.enter, exit: w.exit });
        },
        None => {},
    }
    assert(steps@ =~= was + long_step::<G, N>(w));
}

fn push_short<G, N>(steps: &mut Vec<Step<G, N>>, w: Option<Wiring<G>>)
    ensures
        final(steps)@ == old(steps)@ + short_step::<G, N>(w),
{
    let ghost was = steps@;
    match w {
        Some(w) => {
            steps.push(Step::ShortOn { enter: w.enter, exit: w.exit });
        },
        None => {},
    }
    assert(steps@ =~= was + short_step::<G, N>(w));
}

fn push_sizing<G, N>(steps: &mut Vec<Step<G, N>>, n: Option<N>)
    ensures
        final(steps)@ == old(steps)@ + sizing_step::<G, N>(n),
{
    let ghost was = steps@;
    match n {
        Some(n) => {
            steps.push(Step::SizedBy(n));
        },
        None => {},
    }
    assert(steps@ =~= was + sizing_step::<G, N>(n));
}

fn push_rebalance<G, N>(steps: &mut Vec<Step<G, N>>, g: Option<G>)
    ensures
        final(steps)@ == old(steps)@ + rebalance_step::<G, N>(g),
{
    let ghost was = steps@;
    match g {
        Some(g) => {
            steps.push(Step::RebalanceOn(g));
        },
        None => {},
    }
    assert(steps@ =~= was + rebalance_step::<G, N>(g));
}

fn push_universe<G, N>(steps: &mut Vec<Step<G, N>>, u: Option<DeclaredUniverse>)
    ensures
        final(steps)@ == old(steps)@ + universe_step::<G, N>(u),
{
    let ghost was = steps@;
    match u {
        Some(u) => {
            if u.strict {
                steps.push(Step::AllOf(u.symbols));
            } else {
                steps.push(Step::AnyOf(u.symbols));
            }
        },
        None => {},
    }
    assert(steps@ =~= was + universe_step::<G, N>(u));
}

// ---------------------------------------------------------------------------
// What signals and sources read
// ---------------------------------------------------------------------------

/// What a signal or a source reads.
#[derive(Debug, Clone, Copy, PartialEq, Eq, Structural)]
pub enum Root {
    /// The prices of whatever symbol there is.
    Candle,
    /// The bar of whatever symbol there is.
    Atom,
    /// All bars, by symbol.
    Snapshot,
    /// Nothing.
    Constant,
    /// A bare value.
    Value,
}

/// What keeps a strategy from reading a signal.
pub open spec fn signal_fault(root: Root) -> Option<Seq<char>> {
    if root == Root::Value {
        Some(
            "a strategy signal must be candle- or snapshot-rooted, not a bare value (Real) signal"@,
        )
    } else {
        None
    }
}

/// What keeps a strategy from reading a source.
pub open spec fn source_fault(root: Root) -> Option<Seq<char>> {
    if root == Root::Value {
        Some(
            "a sizing source must be candle- or snapshot-rooted (or a constant), not a bare value (Real) source"@,
        )
    } else {
        None
    }
}

/// The refusal of a signal or a source that names no symbol where there are two.
pub open spec fn unrooted(slot: Seq<char>) -> Seq<char> {
    "a pairs strategy privileges neither leg, so this "@ + slot
        + " has no series to read: it is candle-rooted and the bar carries both legs. Name the series on each leaf — `close(pick(\"BTC\"))` rather than `close()`. Calendar leaves need it too, even though they only read the bar's timestamp: `day_of_week(pick(\"BTC\"))` (either leg will do — they share the time)."@
}

/// What keeps a strategy on two symbols from reading a signal.
pub open spec fn pairs_signal_fault(root: Root) -> Option<Seq<char>> {
    if root == Root::Candle || root == Root::Atom {
        Some(unrooted("signal"@))
    } else {
        signal_fault(root)
    }
}

/// What keeps a strategy on two symbols from reading a source.
pub open spec fn pairs_source_fault(root: Root) -> Option<Seq<char>> {
    if root == Root::Candle || root == Root::Atom {
        Some(unrooted("source"@))
    } else {
        source_fault(root)
    }
}

/// A signal that a strategy can read.
pub fn snapshot_signal<G>(signal: (G, Root)) -> (out: Result<G, String>)
    ensures
        match out {
            Ok(g) => signal_fault(signal.1) is None && g == signal.0,
            Err(e) => signal_fault(signal.1) == Some(e@),
        },
{
    if signal.1 == Root::Value {
        return Err(
            "a strategy signal must be candle- or snapshot-rooted, not a bare value (Real) signal".to_owned(),
        );
    }
    Ok(signal.0)
}

/// A source that a strategy can read.
pub fn snapshot_source<N>(source: (N, Root)) -> (out: Result<N, String>)
    ensures
        match out {
            Ok(n) => source_fault(source.1) is None && n == source.0,
            Err(e) => source_fault(source.1) == Some(e@),
        },
{
    if source.1 == Root::Value {
        return Err(
            "a sizing source must be candle- or snapshot-rooted (or a constant), not a bare value (Real) source".to_owned(),
        );
    }
    Ok(source.0)
}

fn unrooted_pairs_leaf(slot: &str) -> (out: String)
    ensures
        out@ == unrooted(slot@),
{
    let mut message: String = "a pairs strategy privileges neither leg, so this ".to_owned();
    message.append(slot);
    message.append(
        " has no series to read: it is candle-rooted and the bar carries both legs. Name the series on each leaf — `close(pick(\"BTC\"))` rather than `close()`. Calendar leaves need it too, even though they only read the bar's timestamp: `day_of_week(pick(\"BTC\"))` (either leg will do — they share the time).",
    );
    message
}

/// A signal that a strategy on two symbols can read.
pub fn pairs_signal<G>(signal: (G, Root)) -> (out: Result<G, String>)
    ensures
        match out {
            Ok(g) => pairs_signal_fault(signal.1) is None && g == signal.0,
            Err(e) => pairs_signal_fault(signal.1) == Some(e@),
        },
{
    if signal.1 == Root::Candle || signal.1 == Root::Atom {
        return Err(unrooted_pairs_leaf("signal"));
    }
    snapshot_signal(signal)
}

/// A source that a strategy on two symbols can read.
pub fn pairs_source<N>(source: (N, Root)) -> (out: Result<N, String>)
    ensures
        match out {
            Ok(n) => pairs_source_fault(source.1) is None && n == source.0,
            Err(e) => pairs_source_fault(source.1) == Some(e@),
        },
{
    if source.1 == Root::Candle || source.1 == Root::Atom {
        return Err(unrooted_pairs_leaf("source"));
    }
    snapshot_source(source)
}

/// The entry and the exit of a side, without what they read.
pub open spec fn wired<G>(enter: (G, Root), exit: Option<(G, Root)>) -> Wiring<G> {
    Wiring {
        enter: enter.0,
        exit: match exit {
            Some(x) => Some(x.0),
            None => None,
        },
    }
}

/// What keeps a strategy from reading a side's signals: the entry comes first.
pub open spec fn side_fault<G>(enter: (G, Root), exit: Option<(G, Root)>) -> Option<Seq<char>> {
    match (signal_fault(enter.1), exit) {
        (Some(e), _) => Some(e),
        (None, Some(x)) => signal_fault(x.1),
        (None, None) => None,
    }
}

/// What keeps a strategy on two symbols from reading a side's signals.
pub open spec fn pairs_side_fault<G>(enter: (G, Root), exit: Option<(G, Root)>) -> Option<
    Seq<char>,
> {
    match (pairs_signal_fault(enter.1), exit) {
        (Some(e), _) => Some(e),
        (None, Some(x)) => pairs_signal_fault(x.1),
        (None, None) => None,
    }
}

fn side_wiring<G>(enter: (G, Root), exit: Option<(G, Root)>) -> (out: Result<Wiring<G>, String>)
    ensures
        match out {
            Ok(w) => side_fault(enter, exit) is None && w == wired(enter, exit),
            Err(e) => side_fault(enter, exit) == Some(e@),
        },
{
    match snapshot_signal(enter) {
        Err(e) => Err(e),
        Ok(g) => match exit {
            None => Ok(Wiring { enter: g, exit: None }),
            Some(x) => match snapshot_signal(x) {
                Err(e) => Err(e),
                Ok(h) => Ok(Wiring { enter: g, exit: Some(h) }),
            },
        },
    }
}

fn pairs_wiring<G>(enter: (G, Root), exit: Option<(G, Root)>) -> (out: Result<Wiring<G>, String>)
    ensures
        match out {
            Ok(w) => pairs_side_fault(enter, exit) is None && w == wired(enter, exit),
            Err(e) => pairs_side_fault(enter, exit) == Some(e@),
        },
{
    match pairs_signal(enter) {
        Err(e) => Err(e),
        Ok(g) => match exit {
            None => Ok(Wiring { enter: g, exit: None }),
            Some(x) => match pairs_signal(x) {
                Err(e) => Err(e),
                Ok(h) => Ok(Wiring { enter: g, exit: Some(h) }),
            },
        },
    }
}

/// What is given where a function of a symbol is wanted.
#[derive(Debug)]
pub enum Factory<T> {
    Callable(T),
    /// Something else, with the name of its type.
    Other(String),
}

/// The refusal of something that is no function of a symbol.
pub open spec fn factory_fault<T>(given: Factory<T>, method: Seq<char>, kind: Seq<char>) -> Option<
    Seq<char>,
> {
    match given {
        Factory::Callable(_) => None,
        Factory::Other(got) => Some(
            method + "() takes a per-symbol factory — a callable `sym -> "@ + kind
                + "` — but got "@ + got@
                + ". Each symbol needs its own chain, rooted on that symbol, so the argument has to be a function of the symbol: `."@
                + method + "(lambda sym: rsi(close(pick(sym)), 14))`."@,
        ),
    }
}

/// The function of a symbol that was given.
pub fn require_factory<T>(given: Factory<T>, method: &str, kind: &str) -> (out: Result<T, String>)
    ensures
        match out {
            Ok(t) => given == Factory::Callable(t),
            Err(e) => factory_fault(given, method@, kind@) == Some(e@),
        },
{
    match given {
        Factory::Callable(t) => Ok(t),
        Factory::Other(got) => {
            let mut message: String = method.to_owned();
            message.append("() takes a per-symbol factory — a callable `sym -> ");
            message.append(kind);
            message.append("` — but got ");
            message.append(&got);
            message.append(
                ". Each symbol needs its own chain, rooted on that symbol, so the argument has to be a function of the symbol: `.",
            );
            message.append(method);
            message.append("(lambda sym: rsi(close(pick(sym)), 14))`.");
            Err(message)
        },
    }
}

/// What is wrong with the functions that are to be a side's entry and exit.
pub open spec fn factories_fault<G>(
    enter: Factory<G>,
    exit: Option<Factory<G>>,
    method: Seq<char>,
) -> Option<Seq<char>> {
    match (factory_fault(enter, method, "Signal"@), exit) {
        (Some(e), _) => Some(e),
        (None, Some(x)) => factory_fault(x, method, "Signal"@),
        (None, None) => None,
    }
}

/// The functions that are a side's entry and exit.
pub open spec fn wired_factories<G>(enter: Factory<G>, exit: Option<Factory<G>>) -> Wiring<G> {
    Wiring {
        enter: enter->Callable_0,
        exit: match exit {
            Some(x) => Some(x->Callable_0),
            None => None,
        },
    }
}

fn factory_wiring<G>(enter: Factory<G>, exit: Option<Factory<G>>, method: &str) -> (out: Result<
    Wiring<G>,
    String,
>)
    ensures
        match out {
            Ok(w) => factories_fault(enter, exit, method@) is None && w == wired_factories(
                enter,
                exit,
            ),
            Err(e) => factories_fault(enter, exit, method@) == Some(e@),
        },
{
    match require_factory(enter, method, "Signal") {
        Err(e) => Err(e),
        Ok(g) => match exit {
            None => Ok(Wiring { enter: g, exit: None }),
            Some(x) => match require_factory(x, method, "Signal") {
                Err(e) => Err(e),
                Ok(h) => Ok(Wiring { enter: g, exit: Some(h) }),
            },
        },
    }
}

// ---------------------------------------------------------------------------
// One symbol
// ---------------------------------------------------------------------------

/// A ready-made strategy of the catalogue, by its recipe.
#[derive(Debug)]
pub enum PresetSpec {
    BuyAndHold { symbol: String },
    MaCrossover { symbol: String, fast: usize, slow: usize },
    RsiReversal { symbol: String, period: usize, oversold: Real, exit_level: Real },
    DonchianBreakout { symbol: String, period: usize },
    KeltnerBreakout { symbol: String, ema_period: usize, atr_period: usize, multiplier: Real },
}

impl PresetSpec {
    /// The symbol that the recipe trades.
    pub open spec fn trades(self) -> Seq<char> {
        match self {
            PresetSpec::BuyAndHold { symbol } => symbol@,
            PresetSpec::MaCrossover { symbol, .. } => symbol@,
            PresetSpec::RsiReversal { symbol, .. } => symbol@,
            PresetSpec::DonchianBreakout { symbol, .. } => symbol@,
            PresetSpec::KeltnerBreakout { symbol, .. } => symbol@,
        }
    }

    /// The symbol that the recipe trades.
    pub fn symbol(&self) -> (out: &String)
        ensures
            out@ == self.trades(),
    {
        match self {
            PresetSpec::BuyAndHold { symbol } => symbol,
            PresetSpec::MaCrossover { symbol, fast: _, slow: _ } => symbol,
            PresetSpec::RsiReversal { symbol, period: _, oversold: _, exit_level: _ } => symbol,
            PresetSpec::DonchianBreakout { symbol, period: _ } => symbol,
            PresetSpec::KeltnerBreakout { symbol, ema_period: _, atr_period: _, multiplier: _ } =>
                symbol,
        }
    }
}

/// A strategy for one symbol: either sides that were wired, or a recipe.
#[derive(Debug)]
pub struct SingleBlueprint<G, N> {
    pub symbol: String,
    pub long: Option<Wiring<G>>,
    pub short: Option<Wiring<G>>,
    pub sizing: Option<N>,
    pub rebalance: Option<G>,
    pub preset: Option<PresetSpec>,
}

impl<G, N> SingleBlueprint<G, N> {
    /// A recipe has no sides and no sizing of its own, and trades the strategy's
    /// symbol.
    pub open spec fn wf(self) -> bool {
        self.preset matches Some(p) ==> self.long is None && self.short is None
            && self.sizing is None && p.trades() == self.symbol@
    }

    /// A strategy with nothing wired.
    pub fn new(symbol: String) -> (out: SingleBlueprint<G, N>)
        ensures
            out.wf(),
            out == (SingleBlueprint::<G, N> {
                symbol,
                long: None,
                short: None,
                sizing: None,
                rebalance: None,
                preset: None,
            }),
    {
        SingleBlueprint {
            symbol,
            long: None,
            short: None,
            sizing: None,
            rebalance: None,
            preset: None,
        }
    }

    /// The strategy of a recipe.
    pub fn from_preset(preset: PresetSpec) -> (out: SingleBlueprint<G, N>)
        ensures
            out.wf(),
            out.symbol@ == preset.trades(),
            out.preset == Some(preset),
            out.rebalance is None,
    {
        let symbol: String = preset.symbol().clone();
        SingleBlueprint {
            symbol,
            long: None,
            short: None,
            sizing: None,
            rebalance: None,
            preset: Some(preset),
        }
    }

    /// Wire the long side; a recipe is refused, and so is a signal that cannot be
    /// read.
    pub fn long_on(self, enter: (G, Root), exit: Option<(G, Root)>) -> (out: Result<
        SingleBlueprint<G, N>,
        String,
    >)
        requires
            self.wf(),
        ensures
            match out {
                Ok(s) => self.preset is None && side_fault(enter, exit) is None && s.wf() && s == (
                SingleBlueprint { long: Some(wired(enter, exit)), ..self }),
                Err(e) => if self.preset is Some {
                    e@
                        == "long_on is not supported on a preset strategy; build one from scratch with fugazi.Strategy(symbol) if you need custom sides"@
                } else {
                    side_fault(enter, exit) == Some(e@)
                },
            },
    {
        if self.preset.is_some() {
            return Err(
                "long_on is not supported on a preset strategy; build one from scratch with fugazi.Strategy(symbol) if you need custom sides".to_owned(),
            );
        }
        match side_wiring(enter, exit) {
            Err(e) => Err(e),
            Ok(w) => Ok(SingleBlueprint { long: Some(w), ..self }),
        }
    }

    /// Wire the short side; a recipe is refused, and so is a signal that cannot be
    /// read.
    pub fn short_on(self, enter: (G, Root), exit: Option<(G, Root)>) -> (out: Result<
        SingleBlueprint<G, N>,
        String,
    >)
        requires
            self.wf(),
        ensures
            match out {
                Ok(s) => self.preset is None && side_fault(enter, exit) is None && s.wf() && s == (
                SingleBlueprint { short: Some(wired(enter, exit)), ..self }),
                Err(e) => if self.preset is Some {
                    e@
                        == "short_on is not supported on a preset strategy; build one from scratch with fugazi.Strategy(symbol) if you need custom sides"@
                } else {
                    side_fault(enter, exit) == Some(e@)
                },
            },
    {
        if self.preset.is_some() {
            return Err(
                "short_on is not supported on a preset strategy; build one from scratch with fugazi.Strategy(symbol) if you need custom sides".to_owned(),
            );
        }
        match side_wiring(enter, exit) {
            Err(e) => Err(e),
            Ok(w) => Ok(SingleBlueprint { short: Some(w), ..self }),
        }
    }

    /// Size positions; a recipe is refused, and so is a source that cannot be read.
    pub fn position_sizing(self, source: (N, Root)) -> (out: Result<SingleBlueprint<G, N>, String>)
        requires
            self.wf(),
        ensures
            match out {
                Ok(s) => self.preset is None && source_fault(source.1) is None && s.wf() && s == (
                SingleBlueprint { sizing: Some(source.0), ..self }),
                Err(e) => if self.preset is Some {
                    e@
                        == "position_sizing is not supported on a preset strategy; build one from scratch with fugazi.Strategy(symbol) if you need custom sizing"@
                } else {
                    source_fault(source.1) == Some(e@)
                },
            },
    {
        if self.preset.is_some() {
            return Err(
                "position_sizing is not supported on a preset strategy; build one from scratch with fugazi.Strategy(symbol) if you need custom sizing".to_owned(),
            );
        }
        match snapshot_source(source) {
            Err(e) => Err(e),
            Ok(n) => Ok(SingleBlueprint { sizing: Some(n), ..self }),
        }
    }

    /// Wire the rebalance gate, of a recipe too; a signal that cannot be read is
    /// refused.
    pub fn rebalance_on(self, signal: (G, Root)) -> (out: Result<SingleBlueprint<G, N>, String>)
        requires
            self.wf(),
        ensures
            match out {
                Ok(s) => signal_fault(signal.1) is None && s.wf() && s == (SingleBlueprint {
                    rebalance: Some(signal.0),
                    ..self
                }),
                Err(e) => signal_fault(signal.1) == Some(e@),
            },
    {
        match snapshot_signal(signal) {
            Err(e) => Err(e),
            Ok(g) => Ok(SingleBlueprint { rebalance: Some(g), ..self }),
        }
    }

    /// The steps that are laid over the recipe, or over a bare strategy: the sides,
    /// then the sizing, then the rebalance gate.
    pub fn materialize(self) -> (out: (Option<PresetSpec>, Vec<Step<G, N>>))
        ensures
            out.0 == self.preset,
            out.1@ == long_step::<G, N>(self.long) + short_step::<G, N>(self.short)
                + sizing_step::<G, N>(self.sizing) + rebalance_step::<G, N>(self.rebalance),
    {
        let mut steps: Vec<Step<G, N>> = Vec::new();
        push_long(&mut steps, self.long);
        push_short(&mut steps, self.short);
        push_sizing(&mut steps, self.sizing);
        push_rebalance(&mut steps, self.rebalance);
        assert(steps@ =~= long_step::<G, N>(self.long) + short_step::<G, N>(self.short)
            + sizing_step::<G, N>(self.sizing) + rebalance_step::<G, N>(self.rebalance));
        (self.preset, steps)
    }

    /// How the strategy is shown.
    pub fn show(&self) -> (out: String)
        ensures
            out@ == (if self.preset is Some {
                "Strategy(preset, symbol='"@
            } else {
                "Strategy(symbol='"@
            }) + self.symbol@ + "')"@,
    {
        let mut out: String = if self.preset.is_some() {
            "Strategy(preset, symbol='".to_owned()
        } else {
            "Strategy(symbol='".to_owned()
        };
        out.append(&self.symbol);
        out.append("')");
        out
    }
}

/// A recipe is built from its recipe alone: nothing but the rebalance gate is laid
/// over it.
pub proof fn presets_take_only_a_gate<G, N>(s: SingleBlueprint<G, N>)
    requires
        s.wf(),
        s.preset is Some,
    ensures
        long_step::<G, N>(s.long) + short_step::<G, N>(s.short) + sizing_step::<G, N>(s.sizing)
            + rebalance_step::<G, N>(s.rebalance) == rebalance_step::<G, N>(s.rebalance),
{
    assert(long_step::<G, N>(s.long) + short_step::<G, N>(s.short) + sizing_step::<G, N>(s.sizing)
        + rebalance_step::<G, N>(s.rebalance) =~= rebalance_step::<G, N>(s.rebalance));
}

// ---------------------------------------------------------------------------
// Two symbols
// ---------------------------------------------------------------------------

/// A strategy on the spread of two symbols.
#[derive(Debug)]
pub struct PairsBlueprint<G, N> {
    pub left: String,
    pub right: String,
    pub long: Option<Wiring<G>>,
    pub short: Option<Wiring<G>>,
    pub stop: Option<N>,
    pub target: Option<N>,
    pub short_stop: Option<N>,
    pub short_target: Option<N>,
    pub sizing: Option<N>,
    pub rebalance: Option<G>,
}

/// The step for one protective level, where it is wired.
pub open spec fn level_step<G, N>(n: Option<N>, step: spec_fn(N) -> Step<G, N>) -> Seq<Step<G, N>> {
    match n {
        Some(n) => seq![step(n)],
        None => seq![],
    }
}

impl<G, N> PairsBlueprint<G, N> {
    /// A strategy with nothing wired.
    pub fn new(left: String, right: String) -> (out: PairsBlueprint<G, N>)
        ensures
            out == (PairsBlueprint::<G, N> {
                left,
                right,
                long: None,
                short: None,
                stop: None,
                target: None,
                short_stop: None,
                short_target: None,
                sizing: None,
                rebalance: None,
            }),
    {
        PairsBlueprint {
            left,
            right,
            long: None,
            short: None,
            stop: None,
            target: None,
            short_stop: None,
            short_target: None,
            sizing: None,
            rebalance: None,
        }
    }

    /// Wire the side that gains as the spread rises. A signal that cannot be read is
    /// refused.
    pub fn long_spread_on(self, enter: (G, Root), exit: Option<(G, Root)>) -> (out: Result<
        PairsBlueprint<G, N>,
        String,
    >)
        ensures
            match out {
                Ok(s) => pairs_side_fault(enter, exit) is None && s == (PairsBlueprint {
                    long: Some(wired(enter, exit)),
                    ..self
                }),
                Err(e) => pairs_side_fault(enter, exit) == Some(e@),
            },
    {
        match pairs_wiring(enter, exit) {
            Err(e) => Err(e),
            Ok(w) => Ok(PairsBlueprint { long: Some(w), ..self }),
        }
    }

    /// Wire the side that gains as the spread falls. A signal that cannot be read is
    /// refused.
    pub fn short_spread_on(self, enter: (G, Root), exit: Option<(G, Root)>) -> (out: Result<
        PairsBlueprint<G, N>,
        String,
    >)
        ensures
            match out {
                Ok(s) => pairs_side_fault(enter, exit) is None && s == (PairsBlueprint {
                    short: Some(wired(enter, exit)),
                    ..self
                }),
                Err(e) => pairs_side_fault(enter, exit) == Some(e@),
            },
    {
        match pairs_wiring(enter, exit) {
            Err(e) => Err(e),
            Ok(w) => Ok(PairsBlueprint { short: Some(w), ..self }),
        }
    }

    /// Wire the side that gains as the spread rises, under its older name.
    pub fn on(self, enter: (G, Root), exit: Option<(G, Root)>) -> (out: Result<
        PairsBlueprint<G, N>,
        String,
    >)
        ensures
            match out {
                Ok(s) => pairs_side_fault(enter, exit) is None && s == (PairsBlueprint {
                    long: Some(wired(enter, exit)),
                    ..self
                }),
                Err(e) => pairs_side_fault(enter, exit) == Some(e@),
            },
    {
        self.long_spread_on(enter, exit)
    }

    /// The spread at or below which the rising side is closed.
    pub fn long_spread_stop_loss(self, level: (N, Root)) -> (out: Result<PairsBlueprint<G, N>, String>)
        ensures
            match out {
                Ok(s) => pairs_source_fault(level.1) is None && s == (PairsBlueprint {
                    stop: Some(level.0),
                    ..self
                }),
                Err(e) => pairs_source_fault(level.1) == Some(e@),
            },
    {
        match pairs_source(level) {
            Err(e) => Err(e),
            Ok(x) => Ok(PairsBlueprint { stop: Some(x), ..self }),
        }
    }

    /// The spread at or above which the rising side is closed.
    pub fn long_spread_take_profit(self, level: (N, Root)) -> (out: Result<PairsBlueprint<G, N>, String>)
        ensures
            match out {
                Ok(s) => pairs_source_fault(level.1) is None && s == (PairsBlueprint {
                    target: Some(level.0),
                    ..self
                }),
                Err(e) => pairs_source_fault(level.1) == Some(e@),
            },
    {
        match pairs_source(level) {
            Err(e) => Err(e),
            Ok(x) => Ok(PairsBlueprint { target: Some(x), ..self }),
        }
    }

    /// The spread at or above which the falling side is closed.
    pub fn short_spread_stop_loss(self, level: (N, Root)) -> (out: Result<PairsBlueprint<G, N>, String>)
        ensures
            match out {
                Ok(s) => pairs_source_fault(level.1) is None && s == (PairsBlueprint {
                    short_stop: Some(level.0),
                    ..self
                }),
                Err(e) => pairs_source_fault(level.1) == Some(e@),
            },
    {
        match pairs_source(level) {
            Err(e) => Err(e),
            Ok(x) => Ok(PairsBlueprint { short_stop: Some(x), ..self }),
        }
    }

    /// The spread at or below which the falling side is closed.
    pub fn short_spread_take_profit(self, level: (N, Root)) -> (out: Result<PairsBlueprint<G, N>, String>)
        ensures
            match out {
                Ok(s) => pairs_source_fault(level.1) is None && s == (PairsBlueprint {
                    short_target: Some(level.0),
                    ..self
                }),
                Err(e) => pairs_source_fault(level.1) == Some(e@),
            },
    {
        match pairs_source(level) {
            Err(e) => Err(e),
            Ok(x) => Ok(PairsBlueprint { short_target: Some(x), ..self }),
        }
    }

    /// Scale the exposure of the pair.
    pub fn position_sizing(self, level: (N, Root)) -> (out: Result<PairsBlueprint<G, N>, String>)
        ensures
            match out {
                Ok(s) => pairs_source_fault(level.1) is None && s == (PairsBlueprint {
                    sizing: Some(level.0),
                    ..self
                }),
                Err(e) => pairs_source_fault(level.1) == Some(e@),
            },
    {
        match pairs_source(level) {
            Err(e) => Err(e),
            Ok(x) => Ok(PairsBlueprint { sizing: Some(x), ..self }),
        }
    }

    /// Wire the rebalance gate.
    pub fn rebalance_on(self, signal: (G, Root)) -> (out: Result<PairsBlueprint<G, N>, String>)
        ensures
            match out {
                Ok(s) => pairs_signal_fault(signal.1) is None && s == (PairsBlueprint {
                    rebalance: Some(signal.0),
                    ..self
                }),
                Err(e) => pairs_signal_fault(signal.1) == Some(e@),
            },
    {
        match pairs_signal(signal) {
            Err(e) => Err(e),
            Ok(x) => Ok(PairsBlueprint { rebalance: Some(x), ..self }),
        }
    }

    /// The steps that build the strategy: the sides, then the protective levels of
    /// the one and the other, then the sizing, then the rebalance gate.
    pub fn materialize(self) -> (out: Vec<Step<G, N>>)
        ensures
            out@ == long_step::<G, N>(self.long) + short_step::<G, N>(self.short) + level_step(
                self.stop,
                |n: N| Step::<G, N>::LongStop(n),
            ) + level_step(self.target, |n: N| Step::<G, N>::LongTarget(n)) + level_step(
                self.short_stop,
                |n: N| Step::<G, N>::ShortStop(n),
            ) + level_step(self.short_target, |n: N| Step::<G, N>::ShortTarget(n)) + sizing_step::<
                G,
                N,
            >(self.sizing) + rebalance_step::<G, N>(self.rebalance),
    {
        let mut steps: Vec<Step<G, N>> = Vec::new();
        push_long(&mut steps, self.long);
        push_short(&mut steps, self.short);
        let ghost sides = long_step::<G, N>(self.long) + short_step::<G, N>(self.short);
        assert(steps@ =~= sides);
        match self.stop {
            Some(n) => {
                steps.push(Step::LongStop(n));
            },
            None => {},
        }
        match self.target {
            Some(n) => {
                steps.push(Step::LongTarget(n));
            },
            None => {},
        }
        match self.short_stop {
            Some(n) => {
                steps.push(Step::ShortStop(n));
            },
            None => {},
        }
        match self.short_target {
            Some(n) => {
                steps.push(Step::ShortTarget(n));
            },
            None => {},
        }
        assert(steps@ =~= sides + level_step(self.stop, |n: N| Step::<G, N>::LongStop(n))
            + level_step(self.target, |n: N| Step::<G, N>::LongTarget(n)) + level_step(
            self.short_stop,
            |n: N| Step::<G, N>::ShortStop(n),
        ) + level_step(self.short_target, |n: N| Step::<G, N>::ShortTarget(n)));
        push_sizing(&mut steps, self.sizing);
        push_rebalance(&mut steps, self.rebalance);
        steps
    }

    /// How the strategy is shown.
    pub fn show(&self) -> (out: String)
        ensures
            out@ == "PairsStrategy(left='"@ + self.left@ + "', right='"@ + self.right@ + "')"@,
    {
        let mut out: String = "PairsStrategy(left='".to_owned();
        out.append(&self.left);
        out.append("', right='");
        out.append(&self.right);
        out.append("')");
        out
    }
}

// ---------------------------------------------------------------------------
// Many symbols
// ---------------------------------------------------------------------------

/// A rule that picks symbols by their scores; each narrows another.
#[derive(Debug)]
pub enum BasketSelection {
    Everything,
    TopBottom { longs: usize, shorts: usize, of: Box<BasketSelection> },
    Threshold { long_min: Real, short_max: Real, of: Box<BasketSelection> },
    Quantile { long_q: Real, short_q: Real, of: Box<BasketSelection> },
}

/// The rule that another narrows: all symbols where none is given.
pub open spec fn inner_rule(of: Option<BasketSelection>) -> BasketSelection {
    match of {
        Some(s) => s,
        None => BasketSelection::Everything,
    }
}

/// The rule that another narrows: all symbols where none is given.
pub fn selection_inner(of: Option<BasketSelection>) -> (out: Box<BasketSelection>)
    ensures
        *out == inner_rule(of),
{
    match of {
        Some(s) => Box::new(s),
        None => Box::new(BasketSelection::Everything),
    }
}

/// The symbols with the highest and the lowest scores.
pub fn top_bottom(longs: usize, shorts: usize, of: Option<BasketSelection>) -> (out:
    BasketSelection)
    ensures
        out == (BasketSelection::TopBottom { longs, shorts, of: Box::new(inner_rule(of)) }),
{
    BasketSelection::TopBottom { longs, shorts, of: selection_inner(of) }
}

/// The symbols that score at least, and at most, so much.
pub fn threshold(long_min: Real, short_max: Real, of: Option<BasketSelection>) -> (out:
    BasketSelection)
    ensures
        out == (BasketSelection::Threshold { long_min, short_max, of: Box::new(inner_rule(of)) }),
{
    BasketSelection::Threshold { long_min, short_max, of: selection_inner(of) }
}

/// The symbols in the highest and the lowest share of the scores.
pub fn quantile(long_q: Real, short_q: Real, of: Option<BasketSelection>) -> (out: BasketSelection)
    ensures
        out == (BasketSelection::Quantile { long_q, short_q, of: Box::new(inner_rule(of)) }),
{
    BasketSelection::Quantile { long_q, short_q, of: selection_inner(of) }
}

/// How many rules stand one in the other.
pub open spec fn nesting(s: BasketSelection) -> nat
    decreases s,
{
    match s {
        BasketSelection::Everything => 0,
        BasketSelection::TopBottom { of, .. } => 1 + nesting(*of),
        BasketSelection::Threshold { of, .. } => 1 + nesting(*of),
        BasketSelection::Quantile { of, .. } => 1 + nesting(*of),
    }
}

/// The rules of a selection, the innermost first: the order in which they are
/// applied.
pub open spec fn applied_rules(s: BasketSelection) -> Seq<BasketSelection>
    decreases s,
{
    match s {
        BasketSelection::Everything => seq![s],
        BasketSelection::TopBottom { of, .. } => applied_rules(*of).push(s),
        BasketSelection::Threshold { of, .. } => applied_rules(*of).push(s),
        BasketSelection::Quantile { of, .. } => applied_rules(*of).push(s),
    }
}

/// The rules of a selection, the innermost first.
pub fn rules<'a>(s: &'a BasketSelection) -> (out: Vec<&'a BasketSelection>)
    ensures
        out@.len() == applied_rules(*s).len(),
        forall|i: int| 0 <= i < out@.len() ==> *(#[trigger] out@[i]) == applied_rules(*s)[i],
    decreases *s,
{
    match s {
        BasketSelection::Everything => {
            let mut out: Vec<&'a BasketSelection> = Vec::new();
            out.push(s);
            out
        },
        BasketSelection::TopBottom { longs: _, shorts: _, of } => {
            let mut out: Vec<&'a BasketSelection> = rules(of);
            out.push(s);
            out
        },
        BasketSelection::Threshold { long_min: _, short_max: _, of } => {
            let mut out: Vec<&'a BasketSelection> = rules(of);
            out.push(s);
            out
        },
        BasketSelection::Quantile { long_q: _, short_q: _, of } => {
            let mut out: Vec<&'a BasketSelection> = rules(of);
            out.push(s);
            out
        },
    }
}

/// Every selection begins with all symbols, and narrows them once for each rule.
pub proof fn selections_begin_with_everything(s: BasketSelection)
    ensures
        applied_rules(s).len() == nesting(s) + 1,
        applied_rules(s)[0] == BasketSelection::Everything,
        applied_rules(s).last() == s,
    decreases s,
{
    match s {
        BasketSelection::Everything => {},
        BasketSelection::TopBottom { of, .. } => {
            selections_begin_with_everything(*of);
        },
        BasketSelection::Threshold { of, .. } => {
            selections_begin_with_everything(*of);
        },
        BasketSelection::Quantile { of, .. } => {
            selections_begin_with_everything(*of);
        },
    }
}

/// A strategy that runs the same rule on each of many symbols.
#[derive(Debug)]
pub struct MultiBlueprint<G, N> {
    pub long: Option<Wiring<G>>,
    pub short: Option<Wiring<G>>,
    pub sizing: Option<N>,
    pub rebalance: Option<G>,
    pub universe: Option<DeclaredUniverse>,
}

impl<G, N> MultiBlueprint<G, N> {
    /// A strategy with nothing wired.
    pub fn new() -> (out: MultiBlueprint<G, N>)
        ensures
            out == (MultiBlueprint::<G, N> {
                long: None,
                short: None,
                sizing: None,
                rebalance: None,
                universe: None,
            }),
    {
        MultiBlueprint { long: None, short: None, sizing: None, rebalance: None, universe: None }
    }

    /// Wire the long side; what is no function of a symbol is refused.
    pub fn long_on(self, enter: Factory<G>, exit: Option<Factory<G>>) -> (out: Result<
        MultiBlueprint<G, N>,
        String,
    >)
        ensures
            match out {
                Ok(s) => factories_fault(enter, exit, "long_on"@) is None && s == (MultiBlueprint {
                    long: Some(wired_factories(enter, exit)),
                    ..self
                }),
                Err(e) => factories_fault(enter, exit, "long_on"@) == Some(e@),
            },
    {
        match factory_wiring(enter, exit, "long_on") {
            Err(e) => Err(e),
            Ok(w) => Ok(MultiBlueprint { long: Some(w), ..self }),
        }
    }

    /// Wire the short side; what is no function of a symbol is refused.
    pub fn short_on(self, enter: Factory<G>, exit: Option<Factory<G>>) -> (out: Result<
        MultiBlueprint<G, N>,
        String,
    >)
        ensures
            match out {
                Ok(s) => factories_fault(enter, exit, "short_on"@) is None && s == (
                MultiBlueprint { short: Some(wired_factories(enter, exit)), ..self }),
                Err(e) => factories_fault(enter, exit, "short_on"@) == Some(e@),
            },
    {
        match factory_wiring(enter, exit, "short_on") {
            Err(e) => Err(e),
            Ok(w) => Ok(MultiBlueprint { short: Some(w), ..self }),
        }
    }

    /// Size positions; what is no function of a symbol is refused.
    pub fn position_sizing(self, factory: Factory<N>) -> (out: Result<
        MultiBlueprint<G, N>,
        String,
    >)
        ensures
            match out {
                Ok(s) => factory is Callable && s == (MultiBlueprint {
                    sizing: Some(factory->Callable_0),
                    ..self
                }),
                Err(e) => factory_fault(factory, "position_sizing"@, "Indicator"@) == Some(e@),
            },
    {
        match require_factory(factory, "position_sizing", "Indicator") {
            Err(e) => Err(e),
            Ok(n) => Ok(MultiBlueprint { sizing: Some(n), ..self }),
        }
    }

    /// Wire the rebalance gate; a signal that cannot be read is refused.
    pub fn rebalance_on(self, signal: (G, Root)) -> (out: Result<MultiBlueprint<G, N>, String>)
        ensures
            match out {
                Ok(s) => signal_fault(signal.1) is None && s == (MultiBlueprint {
                    rebalance: Some(signal.0),
                    ..self
                }),
                Err(e) => signal_fault(signal.1) == Some(e@),
            },
    {
        match snapshot_signal(signal) {
            Err(e) => Err(e),
            Ok(g) => Ok(MultiBlueprint { rebalance: Some(g), ..self }),
        }
    }

    /// Trade exactly these symbols.
    pub fn all_of(self, symbols: Vec<String>) -> (out: MultiBlueprint<G, N>)
        ensures
            out == (MultiBlueprint {
                universe: Some(DeclaredUniverse { strict: true, symbols }),
                ..self
            }),
    {
        MultiBlueprint { universe: Some(DeclaredUniverse { strict: true, symbols }), ..self }
    }

    /// Trade those of these symbols that are there.
    pub fn any_of(self, symbols: Vec<String>) -> (out: MultiBlueprint<G, N>)
        ensures
            out == (MultiBlueprint {
                universe: Some(DeclaredUniverse { strict: false, symbols }),
                ..self
            }),
    {
        MultiBlueprint { universe: Some(DeclaredUniverse { strict: false, symbols }), ..self }
    }

    /// The steps that build the strategy: the sides, the sizing, the rebalance gate, and the
    /// symbols.
    pub fn materialize(self) -> (out: Vec<Step<G, N>>)
        ensures
            out@ == long_step::<G, N>(self.long) + short_step::<G, N>(self.short) + sizing_step::<
                G,
                N,
            >(self.sizing) + rebalance_step::<G, N>(self.rebalance) + universe_step::<G, N>(
                self.universe,
            ),
    {
        let mut steps: Vec<Step<G, N>> = Vec::new();
        push_long(&mut steps, self.long);
        push_short(&mut steps, self.short);
        assert(steps@ =~= long_step::<G, N>(self.long) + short_step::<G, N>(self.short));
        push_sizing(&mut steps, self.sizing);
        push_rebalance(&mut steps, self.rebalance);
        push_universe(&mut steps, self.universe);
        steps
    }
}

/// The step that picks symbols, where a rule is given.
pub open spec fn selection_step<G, N>(s: Option<BasketSelection>) -> Seq<Step<G, N>> {
    match s {
        Some(s) => seq![Step::Select(s)],
        None => seq![],
    }
}

/// A strategy that scores many symbols and picks some.
#[derive(Debug)]
pub struct BasketBlueprint<G, N> {
    pub score: Option<N>,
    pub sizing: Option<N>,
    pub selection: Option<BasketSelection>,
    pub balance_sides: bool,
    pub rebalance: Option<G>,
    pub universe: Option<DeclaredUniverse>,
}

impl<G, N> BasketBlueprint<G, N> {
    /// A strategy with nothing wired, whose sides are balanced.
    pub fn new() -> (out: BasketBlueprint<G, N>)
        ensures
            out == (BasketBlueprint::<G, N> {
                score: None,
                sizing: None,
                selection: None,
                balance_sides: true,
                rebalance: None,
                universe: None,
            }),
    {
        BasketBlueprint {
            score: None,
            sizing: None,
            selection: None,
            balance_sides: true,
            rebalance: None,
            universe: None,
        }
    }

    /// Score symbols; what is no function of a symbol is refused.
    pub fn scored_by(self, factory: Factory<N>) -> (out: Result<BasketBlueprint<G, N>, String>)
        ensures
            match out {
                Ok(s) => factory is Callable && s == (BasketBlueprint {
                    score: Some(factory->Callable_0),
                    ..self
                }),
                Err(e) => factory_fault(factory, "scored_by"@, "Indicator"@) == Some(e@),
            },
    {
        match require_factory(factory, "scored_by", "Indicator") {
            Err(e) => Err(e),
            Ok(n) => Ok(BasketBlueprint { score: Some(n), ..self }),
        }
    }

    /// Size positions; what is no function of a symbol is refused.
    pub fn sized_by(self, factory: Factory<N>) -> (out: Result<BasketBlueprint<G, N>, String>)
        ensures
            match out {
                Ok(s) => factory is Callable && s == (BasketBlueprint {
                    sizing: Some(factory->Callable_0),
                    ..self
                }),
                Err(e) => factory_fault(factory, "sized_by"@, "Indicator"@) == Some(e@),
            },
    {
        match require_factory(factory, "sized_by", "Indicator") {
            Err(e) => Err(e),
            Ok(n) => Ok(BasketBlueprint { sizing: Some(n), ..self }),
        }
    }

    /// Pick symbols by a rule.
    pub fn selection(self, rule: BasketSelection) -> (out: BasketBlueprint<G, N>)
        ensures
            out == (BasketBlueprint { selection: Some(rule), ..self }),
    {
        BasketBlueprint { selection: Some(rule), ..self }
    }

    /// Pick the symbols with the highest and the lowest scores.
    pub fn top_bottom(self, longs: usize, shorts: usize, of: Option<BasketSelection>) -> (out:
        BasketBlueprint<G, N>)
        ensures
            out == (BasketBlueprint {
                selection: Some(
                    BasketSelection::TopBottom { longs, shorts, of: Box::new(inner_rule(of)) },
                ),
                ..self
            }),
    {
        self.selection(self::top_bottom(longs, shorts, of))
    }

    /// Pick the symbols that score at least, and at most, so much.
    pub fn threshold(self, long_min: Real, short_max: Real, of: Option<BasketSelection>) -> (out:
        BasketBlueprint<G, N>)
        ensures
            out == (BasketBlueprint {
                selection: Some(
                    BasketSelection::Threshold { long_min, short_max, of: Box::new(inner_rule(of)) },
                ),
                ..self
            }),
    {
        self.selection(self::threshold(long_min, short_max, of))
    }

    /// Pick the symbols in the highest and the lowest share of the scores.
    pub fn quantile(self, long_q: Real, short_q: Real, of: Option<BasketSelection>) -> (out:
        BasketBlueprint<G, N>)
        ensures
            out == (BasketBlueprint {
                selection: Some(
                    BasketSelection::Quantile { long_q, short_q, of: Box::new(inner_rule(of)) },
                ),
                ..self
            }),
    {
        self.selection(self::quantile(long_q, short_q, of))
    }

    /// Balance the sides, or do not.
    pub fn balance_sides(self, balance: bool) -> (out: BasketBlueprint<G, N>)
        ensures
            out == (BasketBlueprint { balance_sides: balance, ..self }),
    {
        BasketBlueprint { balance_sides: balance, ..self }
    }

    /// Wire the rebalance gate; a signal that cannot be read is refused.
    pub fn rebalance_on(self, signal: (G, Root)) -> (out: Result<BasketBlueprint<G, N>, String>)
        ensures
            match out {
                Ok(s) => signal_fault(signal.1) is None && s == (BasketBlueprint {
                    rebalance: Some(signal.0),
                    ..self
                }),
                Err(e) => signal_fault(signal.1) == Some(e@),
            },
    {
        match snapshot_signal(signal) {
            Err(e) => Err(e),
            Ok(g) => Ok(BasketBlueprint { rebalance: Some(g), ..self }),
        }
    }

    /// Trade exactly these symbols.
    pub fn all_of(self, symbols: Vec<String>) -> (out: BasketBlueprint<G, N>)
        ensures
            out == (BasketBlueprint {
                universe: Some(DeclaredUniverse { strict: true, symbols }),
                ..self
            }),
    {
        BasketBlueprint { universe: Some(DeclaredUniverse { strict: true, symbols }), ..self }
    }

    /// Trade those of these symbols that are there.
    pub fn any_of(self, symbols: Vec<String>) -> (out: BasketBlueprint<G, N>)
        ensures
            out == (BasketBlueprint {
                universe: Some(DeclaredUniverse { strict: false, symbols }),
                ..self
            }),
    {
        BasketBlueprint { universe: Some(DeclaredUniverse { strict: false, symbols }), ..self }
    }

    /// The steps that build the strategy: the score, the sizing, the selection, the
    /// balance of the sides, the rebalance gate, and the symbols.
    pub fn materialize(self) -> (out: Vec<Step<G, N>>)
        ensures
            out@ == level_step(self.score, |n: N| Step::<G, N>::ScoredBy(n)) + sizing_step::<G, N>(
                self.sizing,
            ) + selection_step::<G, N>(self.selection) + seq![Step::<G, N>::BalanceSides(self.balance_sides)] + rebalance_step::<G, N>(
                self.rebalance,
            ) + universe_step::<G, N>(self.universe),
    {
        let mut steps: Vec<Step<G, N>> = Vec::new();
        let ghost scored = level_step(self.score, |n: N| Step::<G, N>::ScoredBy(n));
        match self.score {
            Some(n) => {
                steps.push(Step::ScoredBy(n));
            },
            None => {},
        }
        assert(steps@ =~= scored);
        push_sizing(&mut steps, self.sizing);
        let ghost sized = steps@;
        let ghost selected = selection_step::<G, N>(self.selection);
        match self.selection {
            Some(s) => {
                steps.push(Step::Select(s));
            },
            None => {},
        }
        assert(steps@ =~= sized + selected);
        let ghost before = steps@;
        steps.push(Step::BalanceSides(self.balance_sides));
        assert(steps@ =~= before + seq![Step::<G, N>::BalanceSides(self.balance_sides)]);
        push_rebalance(&mut steps, self.rebalance);
        push_universe(&mut steps, self.universe);
        steps
    }
}

// ---------------------------------------------------------------------------
// Portfolios
// ---------------------------------------------------------------------------

/// What something that is to become part of a portfolio is.
#[derive(Debug, Clone, Copy, PartialEq, Eq, Structural)]
pub enum ChildKind {
    Strategy,
    Pairs,
    Basket,
    MultiAsset,
    Portfolio,
    Other,
}

/// Strategies that share one account.
#[derive(Debug)]
pub struct PortfolioBlueprint<C, G> {
    pub children: Vec<(String, C)>,
    pub weights: Option<Vec<Real>>,
    pub rebalance: Option<G>,
}

/// A part's slice of the portfolio's opening equity.
#[derive(Debug, Clone, Copy, PartialEq, Eq, Structural)]
pub enum Share {
    /// The equity times the weight, over the total.
    Weighed { weight: Real, total: Real },
    /// The equity over the number of parts.
    Equal { parts: usize },
}

/// One step of building a portfolio.
#[derive(Debug)]
pub enum PortfolioStep<C, G> {
    /// Start from this equity.
    InitialEquity(Real),
    /// Add a part under a name, built on its slice of the equity.
    Add(String, C, Share),
    /// Weigh the parts as given, in their order.
    FixedWeights(Vec<Real>),
    /// Weigh all parts the same.
    EqualWeights,
    /// Pull the parts back to their weights on a signal.
    RebalanceOn(G),
}

/// The slice of the part at `i`: its own weight out of the total, or one of equal
/// slices where there are no weights.
pub open spec fn share_of<C, G>(p: PortfolioBlueprint<C, G>, total: Real, i: int) -> Share {
    match p.weights {
        Some(w) => Share::Weighed { weight: w@[i], total },
        None => Share::Equal { parts: p.children@.len() as usize },
    }
}

/// The steps that add parts, in their order.
pub open spec fn added<C, G>(p: PortfolioBlueprint<C, G>, total: Real) -> Seq<
    PortfolioStep<C, G>,
> {
    Seq::new(
        p.children@.len(),
        |i: int|
            PortfolioStep::Add(p.children@[i].0, p.children@[i].1, share_of(p, total, i)),
    )
}

/// The steps that build a portfolio that starts from `seed`.
pub open spec fn portfolio_steps<C, G>(p: PortfolioBlueprint<C, G>, seed: Real, total: Real) -> Seq<
    PortfolioStep<C, G>,
> {
    seq![PortfolioStep::InitialEquity(seed)] + added(p, total) + (match p.weights {
        Some(w) => seq![PortfolioStep::FixedWeights(w)],
        None => seq![PortfolioStep::EqualWeights],
    }) + (match p.rebalance {
        Some(g) => seq![PortfolioStep::RebalanceOn(g)],
        None => seq![],
    })
}

/// Whether a name is taken.
pub open spec fn is_taken<C>(children: Seq<(String, C)>, name: Seq<char>) -> bool {
    exists|i: int| 0 <= i < children.len() && (#[trigger] children[i]).0@ == name
}

/// Why a part cannot be added, if it cannot.
pub open spec fn add_fault<C>(
    children: Seq<(String, C)>,
    name: Seq<char>,
    kind: ChildKind,
) -> Option<Seq<char>> {
    if is_taken(children, name) {
        Some("Portfolio.add: duplicate child name `"@ + name + "`"@)
    } else if kind == ChildKind::Portfolio {
        Some(
            "Portfolio.add: a Portfolio cannot be a child of a Portfolio — an inner portfolio's account is never priced. Flatten the children into one portfolio, or run them separately."@,
        )
    } else if kind == ChildKind::Other {
        Some(
            "Portfolio.add: strategy must be a Strategy, PairsStrategy, BasketStrategy or MultiAssetStrategy"@,
        )
    } else {
        None
    }
}

/// Why a portfolio cannot be run, if it cannot. `total` is the sum of its weights.
pub open spec fn run_fault<C, G>(p: PortfolioBlueprint<C, G>, total: Real) -> Option<Seq<char>> {
    if p.children@.len() == 0 {
        Some("Portfolio.run: add at least one child strategy first"@)
    } else if p.weights matches Some(w) && w@.len() != p.children@.len() {
        Some(
            "Portfolio.weights: "@ + text::decimal(p.weights->0@.len()) + " weights for "@
                + text::decimal(p.children@.len()) + " children"@,
        )
    } else if p.weights is Some && total.at_most_zero() {
        Some("Portfolio.weights: weights must not sum to zero"@)
    } else {
        None
    }
}

impl<C, G> PortfolioBlueprint<C, G> {
    /// Each part has a name of its own.
    pub open spec fn wf(self) -> bool {
        forall|i: int, j: int|
            0 <= i < j < self.children@.len() ==> (#[trigger] self.children@[i]).0@ != (
            #[trigger] self.children@[j]).0@
    }

    /// A portfolio without parts.
    pub fn new() -> (out: PortfolioBlueprint<C, G>)
        ensures
            out.wf(),
            out.children@.len() == 0,
            out.weights is None,
            out.rebalance is None,
    {
        PortfolioBlueprint { children: Vec::new(), weights: None, rebalance: None }
    }

    /// Add a part under a name of its own. A portfolio cannot be part of another.
    pub fn add(self, name: String, child: C, kind: ChildKind) -> (out: Result<
        PortfolioBlueprint<C, G>,
        String,
    >)
        requires
            self.wf(),
        ensures
            match (out, add_fault(self.children@, name@, kind)) {
                (Ok(p), None) => p.wf() && p.children@ == self.children@.push((name, child))
                    && p.weights == self.weights && p.rebalance == self.rebalance,
                (Err(e), Some(m)) => e@ == m,
                _ => false,
            },
    {
        let n: usize = self.children.len();
        for i in 0..n
            invariant
                n == self.children@.len(),
                forall|j: int| 0 <= j < i ==> (#[trigger] self.children@[j]).0@ != name@,
        {
            if text::same(&self.children[i].0, &name) {
                assert(self.children@[i as int].0@ == name@);
                assert(is_taken(self.children@, name@));
                let mut message: String = "Portfolio.add: duplicate child name `".to_owned();
                message.append(&name);
                message.append("`");
                return Err(message);
            }
        }
        assert(!is_taken(self.children@, name@));
        match kind {
            ChildKind::Portfolio => {
                return Err(
                    "Portfolio.add: a Portfolio cannot be a child of a Portfolio — an inner portfolio's account is never priced. Flatten the children into one portfolio, or run them separately.".to_owned(),
                );
            },
            ChildKind::Other => {
                return Err(
                    "Portfolio.add: strategy must be a Strategy, PairsStrategy, BasketStrategy or MultiAssetStrategy".to_owned(),
                );
            },
            _ => {},
        }
        let ghost before = self.children@;
        let mut children: Vec<(String, C)> = self.children;
        children.push((name, child));
        assert forall|i: int, j: int| 0 <= i < j < children@.len() implies (
        #[trigger] children@[i]).0@ != (#[trigger] children@[j]).0@ by {
            assert(children@[i] == before[i]);
            if j < before.len() {
                assert(children@[j] == before[j]);
            }
        }
        Ok(PortfolioBlueprint { children, weights: self.weights, rebalance: self.rebalance })
    }

    /// Wire the rebalance gate; a signal that cannot be read is refused.
    pub fn rebalance_on(self, signal: (G, Root)) -> (out: Result<PortfolioBlueprint<C, G>, String>)
        requires
            self.wf(),
        ensures
            match out {
                Ok(p) => signal_fault(signal.1) is None && p.wf() && p == (PortfolioBlueprint {
                    rebalance: Some(signal.0),
                    ..self
                }),
                Err(e) => signal_fault(signal.1) == Some(e@),
            },
    {
        match snapshot_signal(signal) {
            Err(e) => Err(e),
            Ok(g) => Ok(PortfolioBlueprint { rebalance: Some(g), ..self }),
        }
    }

    /// Fix the weights of the parts, in their order. None may be below zero.
    pub fn weigh(self, weights: Vec<Real>) -> (out: Result<PortfolioBlueprint<C, G>, String>)
        requires
            self.wf(),
        ensures
            match out {
                Ok(p) => (forall|i: int|
                    0 <= i < weights@.len() ==> !(#[trigger] weights@[i]).below(Real { bits: 0 }))
                    && p.wf() && p.children == self.children && p.weights == Some(weights)
                    && p.rebalance == self.rebalance,
                Err(e) => (exists|i: int|
                    0 <= i < weights@.len() && (#[trigger] weights@[i]).below(Real { bits: 0 }))
                    && e@ == "Portfolio.weights: weights must be non-negative"@,
            },
    {
        let n: usize = weights.len();
        for i in 0..n
            invariant
                n == weights@.len(),
                forall|j: int|
                    0 <= j < i ==> !(#[trigger] weights@[j]).below(Real { bits: 0 }),
        {
            if weights[i].less(Real::zero()) {
                assert(weights@[i as int].below(Real { bits: 0 }));
                return Err("Portfolio.weights: weights must be non-negative".to_owned());
            }
        }
        Ok(
            PortfolioBlueprint {
                children: self.children,
                weights: Some(weights),
                rebalance: self.rebalance,
            },
        )
    }

    /// Check that the portfolio can be run. `total` is the sum of its weights.
    pub fn check(&self, total: Real) -> (out: Result<(), String>)
        ensures
            match (out, run_fault(*self, total)) {
                (Ok(_), None) => true,
                (Err(e), Some(m)) => e@ == m,
                _ => false,
            },
    {
        if self.children.len() == 0 {
            return Err("Portfolio.run: add at least one child strategy first".to_owned());
        }
        match &self.weights {
            Some(w) => {
                if w.len() != self.children.len() {
                    let mut message: String = "Portfolio.weights: ".to_owned();
                    message.append(&text::decimal_string(w.len() as u64));
                    message.append(" weights for ");
                    message.append(&text::decimal_string(self.children.len() as u64));
                    message.append(" children");
                    return Err(message);
                }
                if total.not_above_zero() {
                    return Err("Portfolio.weights: weights must not sum to zero".to_owned());
                }
            },
            None => {},
        }
        Ok(())
    }

    /// The steps that build the portfolio: the equity that it starts from, its parts
    /// in the order they were added, each with its slice of that equity, their
    /// weights, and the rebalance gate; or what keeps it from being run. `total` is
    /// the sum of its weights.
    pub fn materialize(self, seed: Real, total: Real) -> (out: Result<
        Vec<PortfolioStep<C, G>>,
        String,
    >)
        ensures
            match (out, run_fault(self, total)) {
                (Ok(steps), None) => steps@ == portfolio_steps(self, seed, total),
                (Err(e), Some(m)) => e@ == m,
                _ => false,
            },
    {
        match self.check(total) {
            Err(e) => {
                return Err(e);
            },
            Ok(()) => {},
        }
        let ghost parts = self.children@;
        let n: usize = self.children.len();
        let mut back: Vec<(String, C)> = reversed(self.children);
        let mut steps: Vec<PortfolioStep<C, G>> = Vec::new();
        steps.push(PortfolioStep::InitialEquity(seed));
        for i in 0..n
            invariant
                n == parts.len(),
                parts == self.children@,
                self.weights matches Some(w) ==> w@.len() == n,
                steps@.len() == i + 1,
                back@.len() == n - i,
                forall|k: int|
                    0 <= k < back@.len() ==> #[trigger] back@[k] == parts[n - 1 - k],
                steps@[0] == PortfolioStep::<C, G>::InitialEquity(seed),
                forall|k: int|
                    0 <= k < i ==> #[trigger] steps@[k + 1] == added(self, total)[k],
        {
            assert(back@[back@.len() - 1] == parts[i as int]);
            let share: Share = match &self.weights {
                Some(w) => Share::Weighed { weight: w[i], total },
                None => Share::Equal { parts: n },
            };
            if let Some((name, child)) = back.pop() {
                steps.push(PortfolioStep::Add(name, child, share));
            }
        }
        assert(steps@ =~= seq![PortfolioStep::<C, G>::InitialEquity(seed)] + added(self, total))
            by {
            assert forall|k: int| 0 < k <= n implies #[trigger] steps@[k] == added(
                self,
                total,
            )[k - 1] by {
                assert(steps@[(k - 1) + 1] == added(self, total)[k - 1]);
            }
        }
        match self.weights {
            Some(w) => {
                steps.push(PortfolioStep::FixedWeights(w));
            },
            None => {
                steps.push(PortfolioStep::EqualWeights);
            },
        }
        match self.rebalance {
            Some(g) => {
                steps.push(PortfolioStep::RebalanceOn(g));
            },
            None => {},
        }
        assert(steps@ =~= portfolio_steps(self, seed, total));
        Ok(steps)
    }

    /// How the portfolio is shown.
    pub fn show(&self) -> (out: String)
        ensures
            out@ == "Portfolio(children=["@ + text::joined(
                Seq::new(self.children@.len(), |i: int| self.children@[i].0@),
                ", "@,
            ) + "])"@,
    {
        let mut names: Vec<String> = Vec::new();
        let n: usize = self.children.len();
        for i in 0..n
            invariant
                n == self.children@.len(),
                names@.len() == i,
                forall|j: int| 0 <= j < i ==> (#[trigger] names@[j])@ == self.children@[j].0@,
        {
            names.push(self.children[i].0.clone());
        }
        assert(text::texts(names@) =~= Seq::new(
            self.children@.len(),
            |i: int| self.children@[i].0@,
        ));
        let mut out: String = "Portfolio(children=[".to_owned();
        out.append(&text::join(&names, ", "));
        out.append("])");
        out
    }
}

// ---------------------------------------------------------------------------
// Accounts
// ---------------------------------------------------------------------------

/// Check the leverage of an account: a number above zero. `shown` is how the number
/// is written.
pub fn check_max_gross(max_gross: Real, shown: &str) -> (out: Result<(), String>)
    ensures
        match out {
            Ok(_) => max_gross.above_zero() && max_gross.finite(),
            Err(e) => !(max_gross.above_zero() && max_gross.finite()) && e@
                == "max_gross must be finite and > 0, got "@ + shown@,
        },
{
    if max_gross.is_above_zero() && max_gross.is_finite() {
        return Ok(());
    }
    let mut message: String = "max_gross must be finite and > 0, got ".to_owned();
    message.append(shown);
    Err(message)
}

/// Whether the text at `i` stands before it too.
pub open spec fn repeats(symbols: Seq<String>, i: int) -> bool {
    0 <= i < symbols.len() && exists|j: int| 0 <= j < i && (#[trigger] symbols[j])@ == symbols[i]@
}

/// Whether the text at `i` is the first that stands before it too.
pub open spec fn first_repeat(symbols: Seq<String>, i: int) -> bool {
    repeats(symbols, i) && forall|j: int| 0 <= j < i ==> !#[trigger] repeats(symbols, j)
}

/// Check that no symbol is given twice.
pub fn check_distinct(symbols: &[String]) -> (out: Result<(), String>)
    ensures
        match out {
            Ok(_) => forall|i: int| !#[trigger] repeats(symbols@, i),
            Err(e) => exists|i: int| #[trigger]
                first_repeat(symbols@, i) && e@ == "set_costs_for_all: symbol "@
                    + text::debug_text(symbols@[i]@) + " appears more than once"@,
        },
{
    let n: usize = symbols.len();
    for i in 0..n
        invariant
            n == symbols@.len(),
            forall|j: int| 0 <= j < i ==> !#[trigger] repeats(symbols@, j),
    {
        for k in 0..i
            invariant
                i < n,
                n == symbols@.len(),
                forall|j: int| 0 <= j < i ==> !#[trigger] repeats(symbols@, j),
                forall|j: int| 0 <= j < k ==> (#[trigger] symbols@[j])@ != symbols@[i as int]@,
        {
            if text::same(&symbols[k], &symbols[i]) {
                assert(symbols@[k as int]@ == symbols@[i as int]@);
                assert(repeats(symbols@, i as int));
                assert(first_repeat(symbols@, i as int));
                let mut message: String = "set_costs_for_all: symbol ".to_owned();
                message.append(&text::debug_quoted(&symbols[i]));
                message.append(" appears more than once");
                return Err(message);
            }
        }
    }
    Ok(())
}

// ---------------------------------------------------------------------------
// Showing orders
// ---------------------------------------------------------------------------

/// A number and how it is written.
#[derive(Debug)]
pub struct Shown {
    pub value: Real,
    pub text: String,
}

/// How a filled order is shown. A commission of zero, and a request for the units
/// that were traded, are left out.
pub open spec fn order_text(
    symbol: Seq<char>,
    side: Side,
    units: (Real, Seq<char>),
    price: Seq<char>,
    kind: OrderKind,
    id: nat,
    commission: (Real, Seq<char>),
    requested: (Real, Seq<char>),
) -> Seq<char> {
    "Order(symbol='"@ + symbol + "', side='"@ + orders::side_word(side) + "', units="@ + units.1
        + ", price="@ + price + ", kind='"@ + orders::kind_word(kind) + "', id="@ + text::decimal(
        id,
    ) + (if commission.0.equals(Real { bits: 0 }) {
        seq![]
    } else {
        ", commission="@ + commission.1
    }) + (if requested.0.equals(units.0) {
        seq![]
    } else {
        ", requested_units="@ + requested.1
    }) + ")"@
}

/// Show a filled order.
pub fn show_order(
    symbol: &str,
    side: Side,
    units: &Shown,
    price: &str,
    kind: OrderKind,
    id: u64,
    commission: &Shown,
    requested: &Shown,
) -> (out: String)
    ensures
        out@ == order_text(
            symbol@,
            side,
            (units.value, units.text@),
            price@,
            kind,
            id as nat,
            (commission.value, commission.text@),
            (requested.value, requested.text@),
        ),
{
    let mut out: String = "Order(symbol='".to_owned();
    out.append(symbol);
    out.append("', side='");
    out.append(orders::side_str(side));
    out.append("', units=");
    out.append(&units.text);
    out.append(", price=");
    out.append(price);
    out.append(", kind='");
    out.append(orders::kind_str(kind));
    out.append("', id=");
    out.append(&text::decimal_string(id));
    let ghost start = out@;
    if !commission.value.same_number(Real::zero()) {
        out.append(", commission=");
        out.append(&commission.text);
        assert(out@ =~= start + (", commission="@ + commission.text@));
    } else {
        assert(out@ =~= start + Seq::<char>::empty());
    }
    let ghost middle = out@;
    if !requested.value.same_number(units.value) {
        out.append(", requested_units=");
        out.append(&requested.text);
        assert(out@ =~= middle + (", requested_units="@ + requested.text@));
    } else {
        assert(out@ =~= middle + Seq::<char>::empty());
    }
    out.append(")");
    out
}

/// How a size is shown; `value` is its number as text.
pub fn show_size(size: Size, value: &str) -> (out: String)
    ensures
        out@ == "Size."@ + size.word() + "("@ + value@ + ")"@,
{
    let mut out: String = "Size.".to_owned();
    out.append(size.kind());
    out.append("(");
    out.append(value);
    out.append(")");
    out
}

/// How a refused order is shown.
pub fn show_rejected(bar: usize, symbol: &str, error: &str, kind: OrderKind) -> (out: String)
    ensures
        out@ == "Rejected(bar="@ + text::decimal(bar as nat) + ", symbol='"@ + symbol@
            + "', error='"@ + error@ + "', kind='"@ + orders::kind_word(kind) + "')"@,
{
    let mut out: String = "Rejected(bar=".to_owned();
    out.append(&text::decimal_string(bar as u64));
    out.append(", symbol='");
    out.append(symbol);
    out.append("', error='");
    out.append(error);
    out.append("', kind='");
    out.append(orders::kind_str(kind));
    out.append("')");
    out
}

/// How a bar that there may be none of is shown.
pub open spec fn bar_text(bar: Option<usize>) -> Seq<char> {
    match bar {
        Some(b) => "Some("@ + text::decimal(b as nat) + ")"@,
        None => "None"@,
    }
}

/// How a report is shown; `initial` is its first equity as text.
pub fn show_report<Sym>(report: &RunReport<Sym>, initial: &str) -> (out: String)
    ensures
        out@ == "RunReport(bars="@ + text::decimal(report.equity_curve@.len()) + ", fills="@
            + text::decimal(report.fills@.len()) + ", rejections="@ + text::decimal(
            report.rejections@.len(),
        ) + ", initial_equity="@ + initial@ + ", ruin_bar="@ + bar_text(report.ruin_bar) + ")"@,
{
    let mut out: String = "RunReport(bars=".to_owned();
    out.append(&text::decimal_string(report.equity_curve.len() as u64));
    out.append(", fills=");
    out.append(&text::decimal_string(report.fills.len() as u64));
    out.append(", rejections=");
    out.append(&text::decimal_string(report.rejections.len() as u64));
    out.append(", initial_equity=");
    out.append(initial);
    out.append(", ruin_bar=");
    let ghost start = out@;
    match report.ruin_bar {
        Some(b) => {
            out.append("Some(");
            out.append(&text::decimal_string(b as u64));
            out.append(")");
        },
        None => {
            out.append("None");
        },
    }
    assert(out@ =~= start + bar_text(report.ruin_bar));
    out.append(")");
    out
}

/// Each thing that is wired becomes one step of its own kind, with what was wired; what
/// is not wired becomes none.
pub proof fn wired_things_are_steps<G, N>(
    w: Wiring<G>,
    n: N,
    g: G,
    u: DeclaredUniverse,
    s: BasketSelection,
)
    ensures
        long_step::<G, N>(Some(w)).len() == 1 && (long_step::<G, N>(Some(w))[0] matches Step::LongOn {
            enter,
            exit,
        } && enter == w.enter && exit == w.exit),
        short_step::<G, N>(Some(w)).len() == 1 && (short_step::<G, N>(Some(w))[0] matches
            Step::ShortOn { enter, exit } && enter == w.enter && exit == w.exit),
        sizing_step::<G, N>(Some(n)).len() == 1 && (sizing_step::<G, N>(Some(n))[0] matches
            Step::SizedBy(m) && m == n),
        rebalance_step::<G, N>(Some(g)).len() == 1 && (rebalance_step::<G, N>(Some(g))[0] matches
            Step::RebalanceOn(h) && h == g),
        selection_step::<G, N>(Some(s)).len() == 1 && (selection_step::<G, N>(Some(s))[0] matches
            Step::Select(t) && t == s),
        universe_step::<G, N>(Some(u)).len() == 1,
        u.strict ==> (universe_step::<G, N>(Some(u))[0] matches Step::AllOf(v) && v == u.symbols),
        !u.strict ==> (universe_step::<G, N>(Some(u))[0] matches Step::AnyOf(v) && v == u.symbols),
        long_step::<G, N>(None).len() == 0 && short_step::<G, N>(None).len() == 0,
        sizing_step::<G, N>(None).len() == 0 && rebalance_step::<G, N>(None).len() == 0,
        selection_step::<G, N>(None).len() == 0 && universe_step::<G, N>(None).len() == 0,
{
}

/// A side's entry is its entry and its exit its exit.
pub proof fn sides_keep_their_signals<G>(enter: (G, Root), exit: (G, Root))
    ensures
        wired(enter, Some(exit)).enter == enter.0,
        wired(enter, Some(exit)).exit == Some(exit.0),
        wired(enter, None).enter == enter.0,
        wired(enter, None::<(G, Root)>).exit is None,
        side_fault(enter, Some(exit)) is None <==> signal_fault(enter.1) is None && signal_fault(
            exit.1,
        ) is None,
        pairs_side_fault(enter, Some(exit)) is None <==> pairs_signal_fault(enter.1) is None
            && pairs_signal_fault(exit.1) is None,
{
}

/// No strategy reads a bare value; one on two symbols reads no single bar either, but all
/// bars by symbol, and constants.
pub proof fn strategies_read_bars(root: Root)
    ensures
        signal_fault(root) is Some <==> root == Root::Value,
        source_fault(root) is Some <==> root == Root::Value,
        pairs_signal_fault(root) is None <==> root == Root::Snapshot || root == Root::Constant,
        pairs_source_fault(root) is None <==> root == Root::Snapshot || root == Root::Constant,
{
}

/// A portfolio starts from its equity, then adds each part in turn, under its own name
/// and with its own weight out of the total, or one of equal slices; then it weighs the
/// parts, and last it wires the rebalance gate, where there is one.
pub proof fn a_portfolio_is_built_part_by_part<C, G>(
    p: PortfolioBlueprint<C, G>,
    seed: Real,
    total: Real,
)
    requires
        p.weights matches Some(w) ==> w@.len() == p.children@.len(),
        p.children@.len() <= usize::MAX,
    ensures
        ({
            let steps = portfolio_steps(p, seed, total);
            let n = p.children@.len() as int;
            &&& steps.len() == n + 2 + (if p.rebalance is Some {
                1int
            } else {
                0
            })
            &&& steps[0] == PortfolioStep::<C, G>::InitialEquity(seed)
            &&& forall|i: int|
                0 <= i < n ==> (#[trigger] steps[i + 1] matches PortfolioStep::Add(name, child, share)
                    && name == p.children@[i].0 && child == p.children@[i].1 && (
                p.weights matches Some(w) ==> share == (Share::Weighed { weight: w@[i], total }))
                    && (p.weights is None ==> share == (Share::Equal { parts: n as usize })))
            &&& p.weights matches Some(w) ==> steps[n + 1] == PortfolioStep::<C, G>::FixedWeights(w)
            &&& p.weights is None ==> steps[n + 1] == PortfolioStep::<C, G>::EqualWeights
            &&& p.rebalance matches Some(g) ==> steps[n + 2] == PortfolioStep::<C, G>::RebalanceOn(
                g,
            )
        }),
{
    let steps = portfolio_steps(p, seed, total);
    assert forall|i: int| 0 <= i < p.children@.len() implies #[trigger] steps[i + 1] == added(
        p,
        total,
    )[i] by {}
}

/// A portfolio can be run exactly where it has parts, as many weights as parts where it
/// has any, and weights that add up to more than zero.
pub proof fn a_portfolio_needs_parts_and_weights<C, G>(p: PortfolioBlueprint<C, G>, total: Real)
    ensures
        run_fault(p, total) is None <==> p.children@.len() > 0 && (p.weights matches Some(w)
            ==> w@.len() == p.children@.len() && !total.at_most_zero()),
{
}

} // verus!
