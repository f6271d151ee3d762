//! One backtest from its bars to what its report is measured by.

use std::sync::Arc;

use vstd::prelude::*;

use crate::backtest;
use crate::backtest::{DriveMode, Entry, RunReport, Snapshot, Strategy, Wallet};
use crate::blueprint;
use crate::cost_models::{CommissionSpec, CostConfig, SlippageSpec, SpreadSpec, TradingCosts};
use crate::frequency::Frequency;
use crate::market;
use crate::market::{Atom, AtomModel, OverlayType, Schema};
use crate::number::Real;
use crate::text;

verus! {

// ---------------------------------------------------------------------------
// Costs
// ---------------------------------------------------------------------------

/// Whether a leg costs nothing: it has no model, or one that is free.
pub open spec fn is_free(costs: TradingCosts) -> bool {
    &&& costs.commission is None || *costs.commission->0 is Free
    &&& costs.spread is None || *costs.spread->0 is Free
    &&& costs.slippage is None || *costs.slippage->0 is Free
}

impl<'a> TradingCosts<'a> {
    /// Whether nothing costs anything.
    pub fn is_none(&self) -> (out: bool)
        ensures
            out == is_free(*self),
    {
        let commission: bool = match self.commission {
            None => true,
            Some(CommissionSpec::Free) => true,
            _ => false,
        };
        let spread: bool = match self.spread {
            None => true,
            Some(SpreadSpec::Free) => true,
            _ => false,
        };
        let slippage: bool = match self.slippage {
            None => true,
            Some(SlippageSpec::Free) => true,
            _ => false,
        };
        commission && spread && slippage
    }
}

/// Whether costs are those that the settings give a symbol at a cadence.
pub open spec fn picks(
    config: CostConfig,
    symbol: Seq<char>,
    freq: Option<Frequency>,
    costs: TradingCosts,
) -> bool {
    &&& match costs.commission {
        Some(m) => config.commission.winner(symbol, freq) == Some(*m),
        None => config.commission.winner(symbol, freq) is None,
    }
    &&& match costs.spread {
        Some(m) => config.spread.winner(symbol, freq) == Some(*m),
        None => config.spread.winner(symbol, freq) is None,
    }
    &&& match costs.slippage {
        Some(m) => config.slippage.winner(symbol, freq) == Some(*m),
        None => config.slippage.winner(symbol, freq) is None,
    }
}

/// Whether costs are those that the settings give each symbol, picked for itself.
pub open spec fn are_costs(
    costs: Seq<(String, TradingCosts)>,
    config: CostConfig,
    symbols: Seq<Seq<char>>,
    freq: Option<Frequency>,
) -> bool {
    costs.len() == symbols.len() && forall|i: int|
        0 <= i < costs.len() ==> (#[trigger] costs[i]).0@ == symbols[i] && picks(
            config,
            symbols[i],
            freq,
            costs[i].1,
        )
}

/// The costs of each symbol, each picked for itself.
pub fn per_symbol_costs<'a>(
    config: &'a CostConfig,
    symbols: &[String],
    freq: Option<Frequency>,
) -> (out: Vec<(String, TradingCosts<'a>)>)
    requires
        config.wf(),
    ensures
        are_costs(out@, *config, text::texts(symbols@), freq),
{
    let mut out: Vec<(String, TradingCosts<'a>)> = Vec::new();
    let n: usize = symbols.len();
    for i in 0..n
        invariant
            n == symbols@.len(),
            config.wf(),
            out@.len() == i,
            forall|j: int|
                0 <= j < i ==> (#[trigger] out@[j]).0@ == symbols@[j]@ && picks(
                    *config,
                    symbols@[j]@,
                    freq,
                    out@[j].1,
                ),
    {
        out.push((symbols[i].clone(), config.resolve(&symbols[i], freq)));
    }
    out
}

/// The costs of each symbol of a list that names none twice.
pub fn costs_for_all<'a>(
    config: &'a CostConfig,
    symbols: &[String],
    freq: Option<Frequency>,
) -> (out: Result<Vec<(String, TradingCosts<'a>)>, String>)
    requires
        config.wf(),
    ensures
        match out {
            Ok(costs) => (forall|i: int| !#[trigger] blueprint::repeats(symbols@, i)) && are_costs(
                costs@,
                *config,
                text::texts(symbols@),
                freq,
            ),
            Err(e) => exists|i: int|
                #[trigger] blueprint::first_repeat(symbols@, i) && e@
                    == "set_costs_for_all: symbol "@ + text::debug_text(symbols@[i]@)
                    + " appears more than once"@,
        },
{
    match blueprint::check_distinct(symbols) {
        Err(e) => Err(e),
        Ok(()) => Ok(per_symbol_costs(config, symbols, freq)),
    }
}

/// Whether a symbol's trades cost anything.
pub open spec fn has_costs(costs: Seq<(String, TradingCosts)>) -> bool {
    exists|i: int| 0 <= i < costs.len() && !is_free((#[trigger] costs[i]).1)
}

/// Tell whether a symbol's trades cost anything.
pub fn costs_active(costs: &Vec<(String, TradingCosts)>) -> (out: bool)
    ensures
        out == has_costs(costs@),
{
    let n: usize = costs.len();
    for i in 0..n
        invariant
            n == costs@.len(),
            forall|j: int| 0 <= j < i ==> is_free((#[trigger] costs@[j]).1),
    {
        if !costs[i].1.is_none() {
            return true;
        }
    }
    false
}

// ---------------------------------------------------------------------------
// Bars
// ---------------------------------------------------------------------------

/// The columns of the first bar that has overlays; none where no bar has.
pub open spec fn first_columns(atoms: Seq<AtomModel>) -> Seq<(Seq<char>, OverlayType)>
    decreases atoms.len(),
{
    if atoms.len() == 0 {
        seq![]
    } else {
        match atoms[0].overlays {
            Some((columns, _)) => columns,
            None => first_columns(atoms.skip(1)),
        }
    }
}

/// Bars as values.
pub open spec fn atoms_of(atoms: Seq<&Atom>) -> Seq<AtomModel> {
    Seq::new(atoms.len(), |i: int| atoms[i]@)
}

/// The columns that a run's bars share: those of the first bar that has overlays.
pub fn schema_from_atoms(atoms: &Vec<&Atom>) -> (out: Arc<Schema>)
    ensures
        out@ == first_columns(atoms_of(atoms@)),
{
    let n: usize = atoms.len();
    let ghost all = atoms_of(atoms@);
    let mut i: usize = 0;
    assert(all.skip(0) =~= all);
    while i < n
        invariant
            i <= n,
            n == atoms@.len(),
            all == atoms_of(atoms@),
            first_columns(all) == first_columns(all.skip(i as int)),
        decreases n - i,
    {
        assert(all.skip(i as int)[0] == atoms@[i as int]@);
        match &atoms[i].overlays {
            Some(o) => {
                return market::share(&o.schema);
            },
            None => {},
        }
        assert(all.skip(i as int).skip(1) =~= all.skip(i + 1));
        i = i + 1;
    }
    let empty: Schema = Schema { columns: Vec::new() };
    assert(empty@ =~= Seq::<(Seq<char>, OverlayType)>::empty());
    Arc::new(empty)
}

/// Whether a bar of a snapshot is this bar of this symbol.
pub open spec fn is_entry(entry: Entry<String>, symbol: Seq<char>, atom: AtomModel) -> bool {
    entry.symbol is Some && entry.symbol->0@ == symbol && entry.freq is None && entry.atom@ == atom
}

/// Whether snapshots are the bars of one symbol, one after the other.
pub open spec fn are_singles(
    snapshots: Seq<Snapshot<String>>,
    symbol: Seq<char>,
    atoms: Seq<(String, Atom)>,
) -> bool {
    snapshots.len() == atoms.len() && forall|i: int|
        0 <= i < snapshots.len() ==> (#[trigger] snapshots[i]).entries@.len() == 1 && is_entry(
            snapshots[i].entries@[0],
            symbol,
            atoms[i].1@,
        )
}

/// The bars of one symbol as snapshots.
pub fn single_snapshots(symbol: &str, atoms: &[(String, Atom)]) -> (out: Vec<Snapshot<String>>)
    ensures
        are_singles(out@, symbol@, atoms@),
{
    let mut out: Vec<Snapshot<String>> = Vec::new();
    let n: usize = atoms.len();
    for i in 0..n
        invariant
            n == atoms@.len(),
            out@.len() == i,
            forall|j: int|
                0 <= j < i ==> (#[trigger] out@[j]).entries@.len() == 1 && is_entry(
                    out@[j].entries@[0],
                    symbol@,
                    atoms@[j].1@,
                ),
    {
        out.push(Snapshot::single(symbol.to_owned(), atoms[i].1.copy()));
    }
    out
}

/// Whether snapshots are the bars of two symbols, side by side.
pub open spec fn are_pairs(
    snapshots: Seq<Snapshot<String>>,
    left_symbol: Seq<char>,
    right_symbol: Seq<char>,
    left: Seq<Atom>,
    right: Seq<Atom>,
) -> bool {
    snapshots.len() == left.len() && forall|i: int|
        0 <= i < snapshots.len() ==> (#[trigger] snapshots[i]).entries@.len() == 2 && is_entry(
            snapshots[i].entries@[0],
            left_symbol,
            left[i]@,
        ) && is_entry(snapshots[i].entries@[1], right_symbol, right[i]@)
}

/// The bars of two symbols as snapshots.
pub fn paired_snapshots(
    left_symbol: &str,
    right_symbol: &str,
    left: &[Atom],
    right: &[Atom],
) -> (out: Vec<Snapshot<String>>)
    requires
        left@.len() == right@.len(),
    ensures
        are_pairs(out@, left_symbol@, right_symbol@, left@, right@),
{
    let mut out: Vec<Snapshot<String>> = Vec::new();
    let n: usize = left.len();
    for i in 0..n
        invariant
            n == left@.len(),
            n == right@.len(),
            out@.len() == i,
            forall|j: int|
                0 <= j < i ==> (#[trigger] out@[j]).entries@.len() == 2 && is_entry(
                    out@[j].entries@[0],
                    left_symbol@,
                    left@[j]@,
                ) && is_entry(out@[j].entries@[1], right_symbol@, right@[j]@),
    {
        let mut snapshot: Snapshot<String> = Snapshot::single(
            left_symbol.to_owned(),
            left[i].copy(),
        );
        snapshot.push(Some(right_symbol.to_owned()), None, right[i].copy());
        out.push(snapshot);
    }
    out
}

// ---------------------------------------------------------------------------
// Running
// ---------------------------------------------------------------------------

/// The numbers that a run is summed up by.
#[derive(Debug, Clone, Copy, PartialEq, Eq, Structural)]
pub struct SummaryRow {
    pub final_equity: Real,
    /// How many fills were booked.
    pub fills: usize,
    pub bars: usize,
}

/// What one backtest produces.
#[derive(Debug)]
pub struct IterationResult {
    /// The label of each bar.
    pub bars: Vec<String>,
    /// The report of the run.
    pub report: RunReport<String>,
    /// The report of the same run without costs, where the run had any.
    pub gross: Option<RunReport<String>>,
    pub summary: SummaryRow,
    /// Whether a cost model was active.
    pub costs_active: bool,
}

/// What a run starts with.
#[derive(Debug)]
pub struct IterationInputs<'a> {
    pub cash: Real,
    /// The settings that each symbol's costs are picked from.
    pub cost_config: &'a CostConfig,
    /// The cadence of the bars, where it is known.
    pub effective_freq: Option<Frequency>,
}

/// Whether a report may come of running a strategy on an account.
pub open spec fn may_report<S: Strategy<String>, W: Wallet<String>>(
    pre: (S, W),
    snapshots: Seq<Snapshot<String>>,
    report: RunReport<String>,
) -> bool {
    exists|post: (S, W)| #[trigger]
        backtest::drives(pre, snapshots, DriveMode::Trade, None, post, report)
}

/// Whether a summary is that of a report.
pub open spec fn sums_up(summary: SummaryRow, report: RunReport<String>, cash: Real) -> bool {
    &&& summary.final_equity == (if report.equity_curve@.len() > 0 {
        report.equity_curve@.last()
    } else {
        cash
    })
    &&& summary.fills == report.fills@.len()
    &&& summary.bars == report.equity_curve@.len()
}

/// Sum up a report.
pub fn summarize(report: &RunReport<String>, cash: Real) -> (out: SummaryRow)
    ensures
        sums_up(out, *report, cash),
{
    let n: usize = report.equity_curve.len();
    let final_equity: Real = if n > 0 {
        report.equity_curve[n - 1]
    } else {
        cash
    };
    SummaryRow { final_equity, fills: report.fills.len(), bars: n }
}

/// Whether a report may come of a strategy and an account that `build` gives for
/// these columns and these costs.
pub open spec fn may_come_of<S, W, F>(
    build: F,
    schema: Schema,
    costs: Vec<(String, TradingCosts)>,
    snapshots: Seq<Snapshot<String>>,
    report: RunReport<String>,
) -> bool where
    S: Strategy<String>,
    W: Wallet<String>,
    F: Fn(&Schema, &Vec<(String, TradingCosts)>) -> (S, W),
 {
    exists|pair: (S, W)|
        call_ensures(build, (&schema, &costs), pair) && #[trigger] may_report(
            pair,
            snapshots,
            report,
        )
}

/// Whether a result may come of running what `build` gives: once with the costs,
/// and once more without any where a symbol's trades cost something.
pub open spec fn may_result<S, W, F>(
    build: F,
    schema: Schema,
    costs: Vec<(String, TradingCosts)>,
    snapshots: Seq<Snapshot<String>>,
    cash: Real,
    out: IterationResult,
) -> bool where
    S: Strategy<String>,
    W: Wallet<String>,
    F: Fn(&Schema, &Vec<(String, TradingCosts)>) -> (S, W),
 {
    &&& may_come_of::<S, W, F>(build, schema, costs, snapshots, out.report)
    &&& out.costs_active == has_costs(costs@)
    &&& match out.gross {
        Some(r) => out.costs_active && exists|free: Vec<(String, TradingCosts)>|
            free@.len() == 0 && #[trigger] may_come_of::<S, W, F>(build, schema, free, snapshots, r),
        None => !out.costs_active,
    }
    &&& sums_up(out.summary, out.report, cash)
    &&& out.summary.bars == snapshots.len()
}

/// Run what `build` gives over bars: with the costs, and once more without any
/// where a symbol's trades cost something.
pub fn run_iteration_core<S, W, F>(
    build: &F,
    schema: &Schema,
    costs: &Vec<(String, TradingCosts)>,
    snapshots: &[Snapshot<String>],
    bars: Vec<String>,
    cash: Real,
) -> (out: IterationResult) where
    S: Strategy<String>,
    W: Wallet<String>,
    F: Fn(&Schema, &Vec<(String, TradingCosts)>) -> (S, W),

    requires
        forall|s: &Schema, c: &Vec<(String, TradingCosts)>| #[trigger]
            call_requires(*build, (s, c)),
    ensures
        out.bars == bars,
        may_result::<S, W, F>(*build, *schema, *costs, snapshots@, cash, out),
{
    let (mut strategy, mut wallet) = build(schema, costs);
    let ghost start = (strategy, wallet);
    let report: RunReport<String> = backtest::run(&mut strategy, &mut wallet, snapshots);
    proof {
        let end = (strategy, wallet);
        assert(backtest::drives(start, snapshots@, DriveMode::Trade, None, end, report));
        backtest::one_point_per_bar(start, snapshots@, DriveMode::Trade, None, end, report);
        assert(may_report(start, snapshots@, report));
        assert(may_come_of::<S, W, F>(*build, *schema, *costs, snapshots@, report));
    }
    let active: bool = costs_active(costs);
    let gross: Option<RunReport<String>> = if active {
        let free: Vec<(String, TradingCosts)> = Vec::new();
        let (mut s, mut w) = build(schema, &free);
        let ghost twin = (s, w);
        let r: RunReport<String> = backtest::run(&mut s, &mut w, snapshots);
        proof {
            let end = (s, w);
            assert(backtest::drives(twin, snapshots@, DriveMode::Trade, None, end, r));
            assert(may_report(twin, snapshots@, r));
            assert(may_come_of::<S, W, F>(*build, *schema, free, snapshots@, r));
        }
        Some(r)
    } else {
        None
    };
    let summary: SummaryRow = summarize(&report, cash);
    IterationResult { bars, report, gross, summary, costs_active: active }
}

/// The labels of bars.
pub open spec fn labels_of(atoms: Seq<(String, Atom)>) -> Seq<Seq<char>> {
    Seq::new(atoms.len(), |i: int| atoms[i].0@)
}

/// Labelled bars as values.
pub open spec fn bars_of(atoms: Seq<(String, Atom)>) -> Seq<AtomModel> {
    Seq::new(atoms.len(), |i: int| atoms[i].1@)
}

/// Bars in a row as values.
pub open spec fn row_of(atoms: Seq<Atom>) -> Seq<AtomModel> {
    Seq::new(atoms.len(), |i: int| atoms[i]@)
}

/// The bars of a snapshot as values.
pub open spec fn entries_of(entries: Seq<Entry<String>>) -> Seq<AtomModel> {
    Seq::new(entries.len(), |i: int| entries[i].atom@)
}

/// All bars of snapshots, in order.
pub open spec fn all_bars(snapshots: Seq<Snapshot<String>>) -> Seq<AtomModel>
    decreases snapshots.len(),
{
    if snapshots.len() == 0 {
        seq![]
    } else {
        all_bars(snapshots.drop_last()) + entries_of(snapshots.last().entries@)
    }
}

/// Whether a result may come of running what `build` gives for these columns, with
/// the costs that the settings give these symbols.
pub open spec fn may_run<S, W, F>(
    build: F,
    columns: Seq<(Seq<char>, OverlayType)>,
    config: CostConfig,
    symbols: Seq<Seq<char>>,
    freq: Option<Frequency>,
    snapshots: Seq<Snapshot<String>>,
    cash: Real,
    out: IterationResult,
) -> bool where
    S: Strategy<String>,
    W: Wallet<String>,
    F: Fn(&Schema, &Vec<(String, TradingCosts)>) -> (S, W),
 {
    exists|schema: Schema, costs: Vec<(String, TradingCosts)>|
        schema@ == columns && are_costs(costs@, config, symbols, freq) && #[trigger] may_result::<
            S,
            W,
            F,
        >(build, schema, costs, snapshots, cash, out)
}

/// Run what `build` gives over the bars of one symbol.
pub fn run_iteration<S, W, F>(
    build: &F,
    symbol: &str,
    atoms: &[(String, Atom)],
    inputs: &IterationInputs,
) -> (out: IterationResult) where
    S: Strategy<String>,
    W: Wallet<String>,
    F: Fn(&Schema, &Vec<(String, TradingCosts)>) -> (S, W),

    requires
        inputs.cost_config.wf(),
        forall|s: &Schema, c: &Vec<(String, TradingCosts)>| #[trigger]
            call_requires(*build, (s, c)),
    ensures
        text::texts(out.bars@) == labels_of(atoms@),
        exists|snapshots: Seq<Snapshot<String>>|
            #[trigger] are_singles(snapshots, symbol@, atoms@) && may_run::<S, W, F>(
                *build,
                first_columns(bars_of(atoms@)),
                *inputs.cost_config,
                seq![symbol@],
                inputs.effective_freq,
                snapshots,
                inputs.cash,
                out,
            ),
{
    let mut bars: Vec<String> = Vec::new();
    let mut seen: Vec<&Atom> = Vec::new();
    let n: usize = atoms.len();
    for i in 0..n
        invariant
            n == atoms@.len(),
            bars@.len() == i,
            seen@.len() == i,
            forall|j: int| 0 <= j < i ==> (#[trigger] bars@[j])@ == atoms@[j].0@,
            forall|j: int| 0 <= j < i ==> (#[trigger] seen@[j])@ == atoms@[j].1@,
    {
        bars.push(atoms[i].0.clone());
        seen.push(&atoms[i].1);
    }
    assert(text::texts(bars@) =~= labels_of(atoms@));
    assert(atoms_of(seen@) =~= bars_of(atoms@));
    let schema: Arc<Schema> = schema_from_atoms(&seen);
    let mut symbols: Vec<String> = Vec::new();
    symbols.push(symbol.to_owned());
    assert(text::texts(symbols@) =~= seq![symbol@]);
    let costs: Vec<(String, TradingCosts)> = per_symbol_costs(
        inputs.cost_config,
        &symbols,
        inputs.effective_freq,
    );
    let snapshots: Vec<Snapshot<String>> = single_snapshots(symbol, atoms);
    let out: IterationResult = run_iteration_core::<S, W, F>(
        build,
        &schema,
        &costs,
        &snapshots,
        bars,
        inputs.cash,
    );
    assert(may_run::<S, W, F>(
        *build,
        first_columns(bars_of(atoms@)),
        *inputs.cost_config,
        seq![symbol@],
        inputs.effective_freq,
        snapshots@,
        inputs.cash,
        out,
    ));
    out
}

/// Run what `build` gives over the bars of one symbol, with its costs alone.
pub fn measured_report<S, W, F>(
    build: &F,
    symbol: &str,
    atoms: &[(String, Atom)],
    inputs: &IterationInputs,
) -> (out: RunReport<String>) where
    S: Strategy<String>,
    W: Wallet<String>,
    F: Fn(&Schema, &Vec<(String, TradingCosts)>) -> (S, W),

    requires
        inputs.cost_config.wf(),
        forall|s: &Schema, c: &Vec<(String, TradingCosts)>| #[trigger]
            call_requires(*build, (s, c)),
    ensures
        exists|snapshots: Seq<Snapshot<String>>, schema: Schema, costs: Vec<(String, TradingCosts)>|
            are_singles(snapshots, symbol@, atoms@) && schema@ == first_columns(bars_of(atoms@))
                && are_costs(
                costs@,
                *inputs.cost_config,
                seq![symbol@],
                inputs.effective_freq,
            ) && #[trigger] may_come_of::<S, W, F>(*build, schema, costs, snapshots, out),
{
    let mut seen: Vec<&Atom> = Vec::new();
    let n: usize = atoms.len();
    for i in 0..n
        invariant
            n == atoms@.len(),
            seen@.len() == i,
            forall|j: int| 0 <= j < i ==> (#[trigger] seen@[j])@ == atoms@[j].1@,
    {
        seen.push(&atoms[i].1);
    }
    assert(atoms_of(seen@) =~= bars_of(atoms@));
    let schema: Arc<Schema> = schema_from_atoms(&seen);
    let mut symbols: Vec<String> = Vec::new();
    symbols.push(symbol.to_owned());
    assert(text::texts(symbols@) =~= seq![symbol@]);
    let costs: Vec<(String, TradingCosts)> = per_symbol_costs(
        inputs.cost_config,
        &symbols,
        inputs.effective_freq,
    );
    let snapshots: Vec<Snapshot<String>> = single_snapshots(symbol, atoms);
    let (mut strategy, mut wallet) = build(&schema, &costs);
    let ghost start = (strategy, wallet);
    let report: RunReport<String> = backtest::run(&mut strategy, &mut wallet, &snapshots);
    proof {
        let end = (strategy, wallet);
        assert(backtest::drives(start, snapshots@, DriveMode::Trade, None, end, report));
        assert(may_report(start, snapshots@, report));
        assert(may_come_of::<S, W, F>(*build, *schema, costs, snapshots@, report));
    }
    report
}

/// Run what `build` gives over the bars of two symbols, side by side.
pub fn run_iteration_pairs<S, W, F>(
    build: &F,
    left_symbol: &str,
    right_symbol: &str,
    bars: Vec<String>,
    left: &[Atom],
    right: &[Atom],
    inputs: &IterationInputs,
) -> (out: IterationResult) where
    S: Strategy<String>,
    W: Wallet<String>,
    F: Fn(&Schema, &Vec<(String, TradingCosts)>) -> (S, W),

    requires
        left@.len() == right@.len(),
        bars@.len() == left@.len(),
        inputs.cost_config.wf(),
        forall|s: &Schema, c: &Vec<(String, TradingCosts)>| #[trigger]
            call_requires(*build, (s, c)),
    ensures
        out.bars == bars,
        exists|snapshots: Seq<Snapshot<String>>|
            #[trigger] are_pairs(snapshots, left_symbol@, right_symbol@, left@, right@)
                && may_run::<S, W, F>(
                *build,
                first_columns(row_of(left@) + row_of(right@)),
                *inputs.cost_config,
                seq![left_symbol@, right_symbol@],
                inputs.effective_freq,
                snapshots,
                inputs.cash,
                out,
            ),
{
    let mut seen: Vec<&Atom> = Vec::new();
    push_all(&mut seen, left);
    push_all(&mut seen, right);
    assert(atoms_of(seen@) =~= row_of(left@) + row_of(right@));
    let schema: Arc<Schema> = schema_from_atoms(&seen);
    let mut symbols: Vec<String> = Vec::new();
    symbols.push(left_symbol.to_owned());
    symbols.push(right_symbol.to_owned());
    assert(text::texts(symbols@) =~= seq![left_symbol@, right_symbol@]);
    let costs: Vec<(String, TradingCosts)> = per_symbol_costs(
        inputs.cost_config,
        &symbols,
        inputs.effective_freq,
    );
    let snapshots: Vec<Snapshot<String>> = paired_snapshots(left_symbol, right_symbol, left, right);
    let out: IterationResult = run_iteration_core::<S, W, F>(
        build,
        &schema,
        &costs,
        &snapshots,
        bars,
        inputs.cash,
    );
    assert(may_run::<S, W, F>(
        *build,
        first_columns(row_of(left@) + row_of(right@)),
        *inputs.cost_config,
        seq![left_symbol@, right_symbol@],
        inputs.effective_freq,
        snapshots@,
        inputs.cash,
        out,
    ));
    out
}

/// Append bars to a list.
fn push_all<'a>(seen: &mut Vec<&'a Atom>, atoms: &'a [Atom])
    ensures
        atoms_of(final(seen)@) == atoms_of(old(seen)@) + row_of(atoms@),
{
    let ghost before = seen@;
    let n: usize = atoms.len();
    for i in 0..n
        invariant
            n == atoms@.len(),
            seen@.len() == before.len() + i,
            forall|j: int| 0 <= j < before.len() ==> #[trigger] seen@[j] == before[j],
            forall|j: int|
                before.len() <= j < seen@.len() ==> (#[trigger] seen@[j])@ == atoms@[j
                    - before.len()]@,
    {
        seen.push(&atoms[i]);
    }
    assert(atoms_of(seen@) =~= atoms_of(before) + row_of(atoms@));
}

/// Run what `build` gives over bars that are aligned already, with the costs of
/// every symbol that may be traded.
pub fn run_iteration_basket<S, W, F>(
    build: &F,
    bars: Vec<String>,
    snapshots: &[Snapshot<String>],
    universe: &[String],
    inputs: &IterationInputs,
) -> (out: IterationResult) where
    S: Strategy<String>,
    W: Wallet<String>,
    F: Fn(&Schema, &Vec<(String, TradingCosts)>) -> (S, W),

    requires
        bars@.len() == snapshots@.len(),
        inputs.cost_config.wf(),
        forall|s: &Schema, c: &Vec<(String, TradingCosts)>| #[trigger]
            call_requires(*build, (s, c)),
    ensures
        out.bars == bars,
        may_run::<S, W, F>(
            *build,
            first_columns(all_bars(snapshots@)),
            *inputs.cost_config,
            text::texts(universe@),
            inputs.effective_freq,
            snapshots@,
            inputs.cash,
            out,
        ),
{
    let mut seen: Vec<&Atom> = Vec::new();
    let n: usize = snapshots.len();
    assert(snapshots@.take(0) =~= Seq::<Snapshot<String>>::empty());
    assert(atoms_of(seen@) =~= Seq::<AtomModel>::empty());
    for i in 0..n
        invariant
            n == snapshots@.len(),
            atoms_of(seen@) == all_bars(snapshots@.take(i as int)),
    {
        let entries: &Vec<Entry<String>> = &snapshots[i].entries;
        let ghost before = seen@;
        let k: usize = entries.len();
        for j in 0..k
            invariant
                k == entries@.len(),
                seen@.len() == before.len() + j,
                forall|m: int| 0 <= m < before.len() ==> #[trigger] seen@[m] == before[m],
                forall|m: int|
                    before.len() <= m < seen@.len() ==> (#[trigger] seen@[m])@ == entries@[m
                        - before.len()].atom@,
        {
            seen.push(&entries[j].atom);
        }
        assert(atoms_of(seen@) =~= atoms_of(before) + entries_of(entries@));
        assert(snapshots@.take(i + 1).drop_last() =~= snapshots@.take(i as int));
    }
    assert(snapshots@.take(n as int) =~= snapshots@);
    let schema: Arc<Schema> = schema_from_atoms(&seen);
    let costs: Vec<(String, TradingCosts)> = per_symbol_costs(
        inputs.cost_config,
        universe,
        inputs.effective_freq,
    );
    run_iteration_core::<S, W, F>(build, &schema, &costs, snapshots, bars, inputs.cash)
}

/// There is a second report exactly where a symbol's trades cost something, and the
/// two reports cover the same bars.
pub proof fn both_reports_cover_the_bars<S, W, F>(
    build: F,
    schema: Schema,
    costs: Vec<(String, TradingCosts)>,
    snapshots: Seq<Snapshot<String>>,
    cash: Real,
    out: IterationResult,
) where
    S: Strategy<String>,
    W: Wallet<String>,
    F: Fn(&Schema, &Vec<(String, TradingCosts)>) -> (S, W),

    requires
        may_result::<S, W, F>(build, schema, costs, snapshots, cash, out),
    ensures
        out.gross is Some <==> has_costs(costs@),
        out.report.equity_curve@.len() == snapshots.len(),
        out.gross matches Some(r) ==> r.equity_curve@.len() == snapshots.len(),
{
    covers_the_bars::<S, W, F>(build, schema, costs, snapshots, out.report);
    if let Some(r) = out.gross {
        let free = choose|free: Vec<(String, TradingCosts)>|
            free@.len() == 0 && #[trigger] may_come_of::<S, W, F>(build, schema, free, snapshots, r);
        covers_the_bars::<S, W, F>(build, schema, free, snapshots, r);
    }
}

proof fn covers_the_bars<S, W, F>(
    build: F,
    schema: Schema,
    costs: Vec<(String, TradingCosts)>,
    snapshots: Seq<Snapshot<String>>,
    report: RunReport<String>,
) where
    S: Strategy<String>,
    W: Wallet<String>,
    F: Fn(&Schema, &Vec<(String, TradingCosts)>) -> (S, W),

    requires
        may_come_of::<S, W, F>(build, schema, costs, snapshots, report),
    ensures
        report.equity_curve@.len() == snapshots.len(),
{
    let pre = choose|pair: (S, W)|
        call_ensures(build, (&schema, &costs), pair) && #[trigger] may_report(
            pair,
            snapshots,
            report,
        );
    let post = choose|post: (S, W)| #[trigger]
        backtest::drives(pre, snapshots, DriveMode::Trade, None, post, report);
    backtest::one_point_per_bar(pre, snapshots, DriveMode::Trade, None, post, report);
}

/// Trades are free where no leg has a model but one that costs nothing; any other model
/// on any leg makes them cost something.
pub proof fn any_model_costs_something(costs: TradingCosts)
    ensures
        costs.commission is None && costs.spread is None && costs.slippage is None ==> is_free(
            costs,
        ),
        costs.commission matches Some(m) && !(*m is Free) ==> !is_free(costs),
        costs.spread matches Some(m) && !(*m is Free) ==> !is_free(costs),
        costs.slippage matches Some(m) && !(*m is Free) ==> !is_free(costs),
        !is_free(costs) ==> (costs.commission matches Some(m) && !(*m is Free)) || (
        costs.spread matches Some(m) && !(*m is Free)) || (costs.slippage matches Some(m) && !(*m
            is Free)),
{
}

/// The columns of a run are those of the first bar that has any.
pub proof fn the_first_columns_count(atoms: Seq<AtomModel>, i: int)
    requires
        0 <= i < atoms.len(),
        atoms[i].overlays is Some,
        forall|j: int| 0 <= j < i ==> (#[trigger] atoms[j]).overlays is None,
    ensures
        first_columns(atoms) == (atoms[i].overlays->0).0,
    decreases atoms.len(),
{
    if i > 0 {
        assert(atoms[0].overlays is None);
        let rest = atoms.skip(1);
        assert forall|j: int| 0 <= j < i - 1 implies (#[trigger] rest[j]).overlays is None by {
            assert(rest[j] == atoms[j + 1]);
        }
        the_first_columns_count(rest, i - 1);
    }
}

/// A summary has the last point of the curve, or the cash where there is none, and
/// counts the fills and the bars.
pub proof fn a_summary_counts(summary: SummaryRow, report: RunReport<String>, cash: Real)
    requires
        sums_up(summary, report, cash),
    ensures
        report.equity_curve@.len() == 0 ==> summary.final_equity == cash && summary.bars == 0,
        report.equity_curve@.len() > 0 ==> summary.final_equity
            == report.equity_curve@[report.equity_curve@.len() - 1],
        summary.bars == report.equity_curve@.len(),
        summary.fills == report.fills@.len(),
{
}

} // verus!
