//! One backtest, and the same without costs.

use fugazi::attribution::Attribution;
use fugazi::backtest::{Snapshot, Strategy, Wallet};
use fugazi::cost_models::{
    CommissionSpec, CostConfig, LegConfig, SlippageSpec, SpreadSpec, TradingCosts,
};
use fugazi::iteration::{
    costs_active, costs_for_all, measured_report, paired_snapshots, per_symbol_costs, run_iteration,
    run_iteration_basket, run_iteration_pairs, schema_from_atoms, single_snapshots, summarize,
    IterationInputs,
};
use fugazi::market::{Atom, Candle, Schema};
use fugazi::number::Real;
use fugazi::orders::{Ack, Order, Rejection, Side, Size, WalletError};

fn dbl(x: f64) -> Real {
    Real { bits: x.to_bits() }
}

fn atom(close: f64) -> Atom {
    Atom::new(Candle::new(dbl(close), dbl(close), dbl(close), dbl(close), dbl(0.0)))
}

/// An account that is worth the sum of the last closes, less a fee.
struct Till {
    fee: f64,
    last: f64,
}

impl Wallet<String> for Till {
    fn equity(&self) -> Real {
        dbl(self.last - self.fee)
    }

    fn observe(&mut self, _symbol: &String, _atom: &Atom) {}

    fn advance(&mut self, bars: &[(&String, Candle)]) -> Vec<Order<String>> {
        self.last = bars.iter().map(|(_, c)| f64::from_bits(c.close.bits)).sum();
        Vec::new()
    }

    fn take_rejections(&mut self) -> Vec<Rejection<String>> {
        Vec::new()
    }

    fn poll_fills(&mut self) -> Vec<Order<String>> {
        Vec::new()
    }

    fn flatten(&mut self) -> Vec<Order<String>> {
        Vec::new()
    }

    fn settle_position(&mut self, _symbol: &String, _target: Real) -> Vec<Order<String>> {
        Vec::new()
    }

    fn carry_coverage(&self) -> Option<(usize, usize)> {
        None
    }

    fn position(&self, _symbol: &String) -> Real {
        dbl(0.0)
    }

    fn set(&mut self, _: &String, _: Side, _: Size) -> Result<Ack<String>, WalletError> {
        Ok(Ack::Working(0))
    }

    fn close(&mut self, _symbol: &String) -> Result<Ack<String>, WalletError> {
        Ok(Ack::Working(0))
    }
}

struct Watcher;

impl Strategy<String> for Watcher {
    fn on_fill(&mut self, _order: &Order<String>) {}

    fn on_reject(&mut self, _rejection: &Rejection<String>) {}

    fn update(&mut self, _snapshot: &Snapshot<String>) {}

    fn is_ready(&self) -> bool {
        true
    }

    fn force_rebalance(&mut self, _hold: Option<&[String]>) {}

    fn trade<W: Wallet<String>>(&self, _wallet: &mut W) {}

    fn take_attribution(&mut self) -> Option<Attribution<String>> {
        None
    }
}

/// A watcher, and a till whose fee is the number of symbols that cost something.
fn build(_schema: &Schema, costs: &Vec<(String, TradingCosts)>) -> (Watcher, Till) {
    let fee = costs.iter().filter(|(_, c)| !c.is_none()).count() as f64;
    (Watcher, Till { fee, last: 1.0 })
}

fn free() -> CostConfig {
    CostConfig {
        commission: LegConfig::empty(),
        spread: LegConfig::empty(),
        slippage: LegConfig::empty(),
    }
}

/// Settings under which one symbol has a spread.
fn spread_on(symbol: &str) -> CostConfig {
    let mut config = free();
    config.spread.by_symbol.insert(symbol.to_string(), SpreadSpec::Bps { bps: dbl(5.0) });
    config
}

fn inputs(config: &CostConfig) -> IterationInputs {
    IterationInputs { cash: dbl(5.0), cost_config: config, effective_freq: None }
}

fn bars(n: usize) -> Vec<String> {
    (0..n).map(|i| format!("bar {i}")).collect()
}

#[test]
fn a_run_without_costs_has_one_report() {
    let atoms = [("d1".to_string(), atom(10.0)), ("d2".to_string(), atom(20.0))];
    let out = run_iteration(&build, "BTC", &atoms, &inputs(&spread_on("ETH")));
    assert_eq!(out.bars, ["d1", "d2"]);
    assert_eq!(out.report.equity_curve, [dbl(10.0), dbl(20.0)]);
    assert!(out.gross.is_none());
    assert!(!out.costs_active);
    assert_eq!(out.summary.final_equity, dbl(20.0));
    assert_eq!(out.summary.bars, 2);
    assert_eq!(out.summary.fills, 0);
}

#[test]
fn a_run_with_costs_has_a_second_report() {
    let atoms = [("d1".to_string(), atom(10.0))];
    let out = run_iteration(&build, "BTC", &atoms, &inputs(&spread_on("BTC")));
    assert!(out.costs_active);
    assert_eq!(out.report.equity_curve, [dbl(9.0)]);
    let config = spread_on("BTC");
    assert_eq!(measured_report(&build, "BTC", &atoms, &inputs(&config)), out.report);
    assert_eq!(out.gross.unwrap().equity_curve, [dbl(10.0)]);
}

#[test]
fn pairs_and_baskets_run_the_same_way() {
    let left = [atom(1.0), atom(2.0)];
    let right = [atom(10.0), atom(20.0)];
    let config = spread_on("B");
    let out = run_iteration_pairs(
        &build, "A", "B", bars(2), &left, &right, &inputs(&config),
    );
    assert_eq!(out.report.equity_curve, [dbl(10.0), dbl(21.0)]);
    assert_eq!(out.gross.as_ref().unwrap().equity_curve, [dbl(11.0), dbl(22.0)]);
    let snapshots = paired_snapshots("A", "B", &left, &right);
    assert_eq!(snapshots[1].entries.len(), 2);
    assert_eq!(snapshots[1].entries[1].symbol.as_deref(), Some("B"));
    let universe = ["A".to_string(), "B".to_string()];
    let basket =
        run_iteration_basket(&build, bars(2), &snapshots, &universe, &inputs(&config));
    assert_eq!(basket.report, out.report);
    assert_eq!(basket.gross, out.gross);
    assert_eq!(basket.bars, ["bar 0", "bar 1"]);
}

/// A run without bars ends with the cash it started with.
#[test]
fn an_empty_run_keeps_its_cash() {
    let out = run_iteration(&build, "BTC", &[], &inputs(&free()));
    assert_eq!(out.summary.final_equity, dbl(5.0));
    assert_eq!(summarize(&out.report, dbl(7.0)).final_equity, dbl(7.0));
    assert!(single_snapshots("BTC", &[]).is_empty());
}

#[test]
fn bars_without_overlays_share_no_columns() {
    let a = atom(1.0);
    assert!(schema_from_atoms(&vec![&a]).keys().is_empty());
}

/// A free model costs as little as none.
#[test]
fn costs_are_active_where_a_symbol_has_some() {
    let mut config = free();
    let symbols = ["A".to_string(), "B".to_string()];
    config.commission.default = Some(CommissionSpec::Free);
    config.slippage.default = Some(SlippageSpec::Free);
    assert!(!costs_active(&per_symbol_costs(&config, &symbols, None)));
    config.spread.by_symbol.insert("B".to_string(), SpreadSpec::Bps { bps: dbl(5.0) });
    let costs = per_symbol_costs(&config, &symbols, None);
    assert!(costs[0].1.is_none());
    assert!(!costs[1].1.is_none());
    assert!(costs_active(&costs));
    assert_eq!(costs_for_all(&config, &symbols, None).unwrap().len(), 2);
    let twice = ["A".to_string(), "A".to_string()];
    assert_eq!(
        costs_for_all(&config, &twice, None).unwrap_err(),
        "set_costs_for_all: symbol \"A\" appears more than once"
    );
    assert!(TradingCosts { commission: None, spread: None, slippage: None }.is_none());
}
