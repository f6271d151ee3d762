//! The driver, on a small paper account.

use fugazi::attribution::{Attribution, ChildFill};
use fugazi::backtest::{
    apply_closeout, rebalance_now, run, run_many, run_rebalancing, warm_up, Closeout, RunReport,
    Snapshot, Strategy, Wallet,
};
use fugazi::market::{Atom, Candle};
use fugazi::number::Real;
use fugazi::orders::{Ack, Order, OrderKind, Rejection, Side, Size, WalletError};
use fugazi::ordmap::OrdMap;

fn dbl(x: f64) -> Real {
    Real { bits: x.to_bits() }
}

fn num(x: Real) -> f64 {
    f64::from_bits(x.bits)
}

fn bar(close: f64) -> Candle {
    Candle::new(dbl(close), dbl(close), dbl(close), dbl(close), dbl(0.0))
}

/// An order that waits for the next bar.
#[derive(Clone)]
enum Wanted {
    To(Side, f64, &'static str),
    Flat,
}

/// An account in memory: orders fill at the close of the next bar.
struct Paper<Sym> {
    cash: f64,
    max_gross: f64,
    commission: f64,
    positions: Vec<(Sym, f64, f64)>,
    pending: Vec<(Sym, Wanted)>,
    refused: Vec<Rejection<Sym>>,
    next_id: u64,
    calls: Vec<&'static str>,
}

impl<Sym: Clone + PartialEq> Paper<Sym> {
    fn new(cash: f64) -> Self {
        Paper {
            cash,
            max_gross: 1.0,
            commission: 0.0,
            positions: Vec::new(),
            pending: Vec::new(),
            refused: Vec::new(),
            next_id: 0,
            calls: Vec::new(),
        }
    }

    fn value(&self) -> f64 {
        self.cash + self.positions.iter().map(|(_, u, p)| u * p).sum::<f64>()
    }

    fn units(&self, symbol: &Sym) -> f64 {
        self.positions.iter().find(|(s, _, _)| s == symbol).map_or(0.0, |(_, u, _)| *u)
    }

    fn price(&self, symbol: &Sym) -> f64 {
        self.positions.iter().find(|(s, _, _)| s == symbol).map_or(0.0, |(_, _, p)| *p)
    }

    fn mark(&mut self, symbol: &Sym, price: f64) {
        match self.positions.iter_mut().find(|(s, _, _)| s == symbol) {
            Some(slot) => slot.2 = price,
            None => self.positions.push((symbol.clone(), 0.0, price)),
        }
    }

    /// Bring a position to a number of units at the current price.
    fn move_to(&mut self, symbol: &Sym, target: f64, ratio: f64) -> Option<Order<Sym>> {
        let price = self.price(symbol);
        let delta = target - self.units(symbol);
        if delta.abs() < 1e-12 {
            return None;
        }
        let fee = delta.abs() * price * self.commission;
        self.cash -= delta * price + fee;
        let slot = self.positions.iter_mut().find(|(s, _, _)| s == symbol).unwrap();
        slot.1 = target;
        self.next_id += 1;
        Some(Order {
            symbol: symbol.clone(),
            side: if delta > 0.0 { Side::Buy } else { Side::Sell },
            units: dbl(delta.abs()),
            price: dbl(price),
            kind: OrderKind::Market,
            id: self.next_id,
            commission: dbl(fee),
            requested_units: dbl(delta.abs() / ratio),
            fill_ratio: dbl(ratio),
            materially_fitted: ratio < 0.99,
        })
    }
}

impl<Sym: Clone + PartialEq> Wallet<Sym> for Paper<Sym> {
    fn equity(&self) -> Real {
        dbl(self.value())
    }

    fn observe(&mut self, _symbol: &Sym, _atom: &Atom) {
        self.calls.push("observe");
    }

    fn advance(&mut self, bars: &[(&Sym, Candle)]) -> Vec<Order<Sym>> {
        self.calls.push("advance");
        for (symbol, candle) in bars {
            self.mark(symbol, num(candle.close));
        }
        let mut fills = Vec::new();
        for (symbol, wanted) in std::mem::take(&mut self.pending) {
            let price = self.price(&symbol);
            let equity = self.value();
            let room = equity * self.max_gross / (price * (1.0 + self.commission));
            let (target, ratio) = match wanted {
                Wanted::Flat => (0.0, 1.0),
                Wanted::To(side, amount, "units") => {
                    if amount > room + 1e-9 {
                        self.next_id += 1;
                        self.refused.push(Rejection {
                            symbol: symbol.clone(),
                            error: WalletError::InsufficientFunds,
                            kind: OrderKind::Market,
                            id: self.next_id,
                        });
                        continue;
                    }
                    (if side == Side::Buy { amount } else { -amount }, 1.0)
                }
                Wanted::To(side, fraction, _) => {
                    let asked = fraction * equity / price;
                    let units = if asked > room { room } else { asked };
                    (if side == Side::Buy { units } else { -units }, units / asked)
                }
            };
            fills.extend(self.move_to(&symbol, target, ratio));
        }
        fills
    }

    fn take_rejections(&mut self) -> Vec<Rejection<Sym>> {
        std::mem::take(&mut self.refused)
    }

    fn poll_fills(&mut self) -> Vec<Order<Sym>> {
        Vec::new()
    }

    fn flatten(&mut self) -> Vec<Order<Sym>> {
        self.calls.push("flatten");
        let symbols: Vec<Sym> = self.positions.iter().map(|(s, _, _)| s.clone()).collect();
        symbols.iter().filter_map(|s| self.move_to(s, 0.0, 1.0)).collect()
    }

    fn settle_position(&mut self, symbol: &Sym, target: Real) -> Vec<Order<Sym>> {
        self.calls.push("settle");
        self.move_to(symbol, num(target), 1.0).into_iter().collect()
    }

    fn carry_coverage(&self) -> Option<(usize, usize)> {
        Some((3, 2))
    }

    fn position(&self, symbol: &Sym) -> Real {
        dbl(self.units(symbol))
    }

    fn set(&mut self, symbol: &Sym, side: Side, size: Size) -> Result<Ack<Sym>, WalletError> {
        let wanted = match size {
            Size::Units(x) => Wanted::To(side, num(x), "units"),
            Size::FundsFraction(x) | Size::ValueFraction(x) | Size::PositionFraction(x) => {
                Wanted::To(side, num(x), "fraction")
            }
        };
        self.pending.push((symbol.clone(), wanted));
        Ok(Ack::Working(0))
    }

    fn close(&mut self, symbol: &Sym) -> Result<Ack<Sym>, WalletError> {
        self.pending.push((symbol.clone(), Wanted::Flat));
        Ok(Ack::Working(0))
    }
}

/// What a test strategy does when it trades.
#[derive(Clone, Copy, PartialEq)]
enum Plan {
    Idle,
    /// Asks for more units than there is money for.
    Overreach,
    /// Asks for so many times the equity while flat.
    AllIn(f64),
    /// Long while the fast average is above the slow one.
    Cross { fast: usize, slow: usize },
}

struct Tester<Sym> {
    symbol: Sym,
    plan: Plan,
    ready: bool,
    closes: Vec<f64>,
    fills: usize,
    seen: Vec<WalletError>,
    gate: Option<Vec<Sym>>,
    gates: Vec<Option<usize>>,
    parts: Option<Attribution<Sym>>,
}

impl<Sym: Clone> Tester<Sym> {
    fn new(symbol: Sym, plan: Plan) -> Self {
        Tester {
            symbol,
            plan,
            ready: true,
            closes: Vec::new(),
            fills: 0,
            seen: Vec::new(),
            gate: None,
            gates: Vec::new(),
            parts: None,
        }
    }

    /// The averages of the last closes, now and one bar ago.
    fn averages(&self, n: usize) -> Option<(f64, f64)> {
        let k = self.closes.len();
        if k < n + 1 {
            return None;
        }
        let mean = |end: usize| self.closes[end - n..end].iter().sum::<f64>() / n as f64;
        Some((mean(k - 1), mean(k)))
    }
}

impl<Sym: Clone + PartialEq> Strategy<Sym> for Tester<Sym> {
    fn on_fill(&mut self, _order: &Order<Sym>) {
        self.fills += 1;
    }

    fn on_reject(&mut self, rejection: &Rejection<Sym>) {
        self.seen.push(rejection.error.clone());
    }

    fn update(&mut self, snapshot: &Snapshot<Sym>) {
        for entry in &snapshot.entries {
            if let Some(c) = entry.atom.candle {
                self.closes.push(num(c.close));
            }
        }
    }

    fn is_ready(&self) -> bool {
        self.ready
    }

    fn force_rebalance(&mut self, hold: Option<&[Sym]>) {
        self.gate = hold.map(|h| h.to_vec());
        self.gates.push(hold.map(|h| h.len()));
    }

    fn trade<W: Wallet<Sym>>(&self, wallet: &mut W) {
        let flat = num(wallet.position(&self.symbol)).abs() < 1e-9;
        match self.plan {
            Plan::Idle => {}
            Plan::Overreach => {
                let _ = wallet.set(&self.symbol, Side::Buy, Size::Units(dbl(1_000.0)));
            }
            Plan::AllIn(frac) => {
                if flat {
                    let _ = wallet.set(&self.symbol, Side::Buy, Size::ValueFraction(dbl(frac)));
                }
            }
            Plan::Cross { fast, slow } => {
                if let (Some((f0, f1)), Some((s0, s1))) = (self.averages(fast), self.averages(slow)) {
                    if f0 <= s0 && f1 > s1 && flat {
                        let _ = wallet.set(&self.symbol, Side::Buy, Size::ValueFraction(dbl(1.0)));
                    } else if f0 >= s0 && f1 < s1 && !flat {
                        let _ = wallet.close(&self.symbol);
                    }
                }
            }
        }
    }

    fn take_attribution(&mut self) -> Option<Attribution<Sym>> {
        self.parts.take()
    }
}

fn snapshots(prices: &[f64]) -> Vec<Snapshot<&'static str>> {
    prices.iter().map(|&p| Snapshot::single("X", Atom::new(bar(p)))).collect()
}

fn named(prices: &[f64]) -> Vec<Snapshot<String>> {
    prices.iter().map(|&p| Snapshot::single("X".to_string(), Atom::new(bar(p)))).collect()
}

fn curve<Sym>(report: &RunReport<Sym>) -> Vec<f64> {
    report.equity_curve.iter().map(|&x| num(x)).collect()
}

#[test]
fn a_refused_order_reaches_the_strategy_and_the_report() {
    let mut strategy = Tester::new("X", Plan::Overreach);
    let mut wallet: Paper<&'static str> = Paper::new(100.0);
    let snaps = snapshots(&[100.0, 100.0, 100.0]);

    let report = run(&mut strategy, &mut wallet, &snaps);

    assert!(report.fills.is_empty(), "nothing could fill");
    assert_eq!(num(wallet.position(&"X")), 0.0);
    assert!(!report.rejections.is_empty(), "must be reported");
    assert!(report
        .rejections
        .iter()
        .all(|r| r.rejection.error == WalletError::InsufficientFunds));
    // Routed to the strategy, so it can stand down rather than carry on
    // believing it is long.
    assert_eq!(
        strategy.seen.len(),
        report.rejections.len(),
        "every reported rejection reached on_reject"
    );
}

#[test]
fn a_clean_run_reports_no_rejections() {
    let mut wallet: Paper<&'static str> = Paper::new(1_000.0);
    let snaps = snapshots(&[100.0]);
    let report = run(&mut Tester::new("X", Plan::Idle), &mut wallet, &snaps);
    assert!(report.rejections.is_empty());
    assert_eq!(report.materially_fitted(), None, "nothing traded at all");
}

/// A fill that was fitted is not a refusal, so it is reported on its own.
#[test]
fn a_fitted_fill_is_reported_without_being_a_rejection() {
    let snaps = snapshots(&[100.0, 100.0, 100.0]);

    // 3x equity on an unlevered account fills at a third of the request.
    let mut wallet: Paper<&'static str> = Paper::new(10_000.0);
    let report = run(&mut Tester::new("X", Plan::AllIn(3.0)), &mut wallet, &snaps);
    assert!(report.rejections.is_empty(), "a fitted fill is not a refusal");
    let (n, worst) =
        report.materially_fitted().expect("a 3x request on a 1x account is material");
    assert_eq!(n, 1);
    let worst = num(worst);
    assert!((worst - 1.0 / 3.0).abs() < 1e-9, "worst ratio {worst}");

    // The same account carrying the same document at a ceiling that fits it
    // reports nothing — the signal is the gap, not the leverage.
    let mut wallet: Paper<&'static str> = Paper::new(10_000.0);
    wallet.max_gross = 3.0;
    let report = run(&mut Tester::new("X", Plan::AllIn(3.0)), &mut wallet, &snaps);
    assert_eq!(report.materially_fitted(), None, "3x on a 3x account fits");

    // And an ordinary all-in is *not* material: it sheds only what
    // commission needs, which is what the threshold exists to ignore.
    let mut wallet: Paper<&'static str> = Paper::new(10_000.0);
    wallet.commission = 0.001; // 10 bps
    let report = run(&mut Tester::new("X", Plan::AllIn(1.0)), &mut wallet, &snaps);
    assert_eq!(report.fills.len(), 1, "the all-in filled");
    assert!(
        num(report.fills[0].order.fill_ratio) < 1.0,
        "a costed all-in always sheds a sliver",
    );
    assert_eq!(
        report.materially_fitted(),
        None,
        "...and that sliver is not worth reporting",
    );
}

/// Prices with a crossing up and a crossing down.
const PRICES: [f64; 13] =
    [14.0, 13.0, 12.0, 11.0, 10.0, 11.0, 13.0, 15.0, 17.0, 15.0, 12.0, 9.0, 7.0];

fn cross(fast: usize, slow: usize) -> Tester<&'static str> {
    Tester::new("X", Plan::Cross { fast, slow })
}

#[test]
fn run_many_matches_sequential_run_per_pair() {
    let snaps = snapshots(&PRICES);

    // Sequential baseline: three independent runs.
    let mut baseline: Vec<RunReport<&'static str>> = Vec::new();
    for _ in 0..3 {
        let mut strat = cross(2, 4);
        let mut wallet: Paper<&'static str> = Paper::new(1_000.0);
        baseline.push(run(&mut strat, &mut wallet, &snaps));
    }

    // Parallel run: three (strategy, wallet) pairs.
    let mut runs: Vec<(Tester<&'static str>, Paper<&'static str>)> =
        (0..3).map(|_| (cross(2, 4), Paper::new(1_000.0))).collect();
    let parallel = run_many(&mut runs, &snaps);

    assert_eq!(parallel.len(), 3);
    for (b, p) in baseline.iter().zip(parallel.iter()) {
        assert_eq!(b.equity_curve, p.equity_curve);
        assert_eq!(b.initial_equity, p.initial_equity);
        assert_eq!(b.fills.len(), p.fills.len());
        assert!(!b.fills.is_empty());
        for (bf, pf) in b.fills.iter().zip(p.fills.iter()) {
            assert_eq!(bf.bar, pf.bar);
            assert_eq!(bf.order.side, pf.order.side);
            assert!((num(bf.order.units) - num(pf.order.units)).abs() < 1e-9);
            assert!((num(bf.order.price) - num(pf.order.price)).abs() < 1e-9);
        }
    }
}

#[test]
fn run_many_preserves_input_order() {
    // Two runs with different fast/slow — verify results come back in
    // the same slot the pair was placed in.
    let snaps = snapshots(&PRICES);

    let mut runs: Vec<(Tester<&'static str>, Paper<&'static str>)> =
        vec![(cross(2, 4), Paper::new(1_000.0)), (cross(3, 5), Paper::new(1_000.0))];
    let reports = run_many(&mut runs, &snaps);
    assert_eq!(reports.len(), 2);
    // Each report matches what a sequential run would have produced for
    // its slot.
    let mut w0: Paper<&'static str> = Paper::new(1_000.0);
    let seq0 = run(&mut cross(2, 4), &mut w0, &snaps);
    let mut w1: Paper<&'static str> = Paper::new(1_000.0);
    let seq1 = run(&mut cross(3, 5), &mut w1, &snaps);
    assert_eq!(reports[0].equity_curve, seq0.equity_curve);
    assert_eq!(reports[1].equity_curve, seq1.equity_curve);
}

/// A grid of crossings, each against its own run.
#[test]
fn run_many_drives_single_asset_strategy() {
    let snaps = snapshots(&PRICES);
    let grid = [(2usize, 4usize), (3, 5), (2, 6)];
    let mut runs: Vec<(Tester<&'static str>, Paper<&'static str>)> =
        grid.iter().map(|&(fast, slow)| (cross(fast, slow), Paper::new(1_000.0))).collect();
    let parallel = run_many(&mut runs, &snaps);

    assert_eq!(parallel.len(), grid.len());
    for (&(fast, slow), p) in grid.iter().zip(parallel.iter()) {
        let mut wallet: Paper<&'static str> = Paper::new(1_000.0);
        let seq = run(&mut cross(fast, slow), &mut wallet, &snaps);
        assert_eq!(seq.equity_curve, p.equity_curve);
        assert_eq!(seq.fills.len(), p.fills.len());
    }
}

/// A ruined account is closed on the bar of ruin, and its curve is zero from there.
#[test]
fn ruin_pins_the_curve_at_zero() {
    let mut wallet: Paper<&'static str> = Paper::new(1_000.0);
    wallet.max_gross = 10.0;
    let mut strategy = Tester::new("X", Plan::AllIn(10.0));
    let report = run(&mut strategy, &mut wallet, &snapshots(&[100.0, 100.0, 50.0, 200.0]));
    assert_eq!(report.ruin_bar, Some(2));
    assert_eq!(curve(&report), [1_000.0, 1_000.0, 0.0, 0.0]);
    assert_eq!(wallet.units(&"X"), 0.0);
    let bars: Vec<usize> = report.fills.iter().map(|f| f.bar).collect();
    assert_eq!(bars, [1, 2], "one fill to enter, one to close");
    assert_eq!(strategy.fills, 2, "the strategy hears of both");
}

/// The parts of a composite are pinned with the curve.
#[test]
fn ruin_pins_the_parts_too() {
    let mut wallet: Paper<&'static str> = Paper::new(1_000.0);
    wallet.max_gross = 10.0;
    let mut strategy = Tester::new("X", Plan::AllIn(10.0));
    let rows = vec![vec![dbl(1.0)], vec![dbl(2.0)], vec![dbl(3.0)]];
    let fills: Vec<ChildFill<&'static str>> = Vec::new();
    strategy.parts = Some(Attribution::new(vec!["a".to_string()], fills, rows));
    let report = run(&mut strategy, &mut wallet, &snapshots(&[100.0, 100.0, 50.0]));
    let parts = report.attribution.unwrap();
    assert_eq!(parts.child_count(), 1);
    assert_eq!(parts.child_equity(0).iter().map(|&x| num(x)).collect::<Vec<_>>(), [1.0, 2.0, 0.0]);
}

/// Rows that add up to the account's equity add up to the curve, after ruin too.
#[test]
fn parts_that_add_up_still_do_in_the_report() {
    let mut wallet: Paper<&'static str> = Paper::new(1_000.0);
    wallet.max_gross = 10.0;
    let mut strategy = Tester::new("X", Plan::AllIn(10.0));
    let closing = [1_000.0, 1_000.0, -4_000.0, -4_000.0];
    let rows = closing.iter().map(|e| vec![dbl(e - 250.0), dbl(250.0)]).collect();
    let names = vec!["a".to_string(), "b".to_string()];
    strategy.parts = Some(Attribution::new(names, Vec::new(), rows));
    let report = run(&mut strategy, &mut wallet, &snapshots(&[100.0, 100.0, 50.0, 200.0]));
    assert_eq!(report.ruin_bar, Some(2));
    let sums: Vec<f64> = report
        .attribution
        .as_ref()
        .unwrap()
        .equity()
        .iter()
        .map(|row| row.iter().map(|&x| num(x)).sum())
        .collect();
    assert_eq!(sums, curve(&report));
}

/// A run over no bars leaves the account as it was.
#[test]
fn no_bars_leave_the_account_alone() {
    let mut wallet: Paper<&'static str> = Paper::new(1_000.0);
    let mut strategy = Tester::new("X", Plan::AllIn(1.0));
    let report = run(&mut strategy, &mut wallet, &[]);
    assert!(wallet.calls.is_empty() && wallet.pending.is_empty());
    assert_eq!(wallet.value(), 1_000.0);
    assert_eq!(num(report.initial_equity), 1_000.0);
    assert!(report.equity_curve.is_empty() && report.fills.is_empty());
    assert_eq!(report.ruin_bar, None);
}

/// A warm-up feeds the bars and submits nothing.
#[test]
fn a_warm_up_never_trades() {
    let mut wallet: Paper<&'static str> = Paper::new(1_000.0);
    let mut strategy = Tester::new("X", Plan::AllIn(1.0));
    warm_up(&mut strategy, &mut wallet, &snapshots(&[1.0, 2.0, 3.0]));
    assert_eq!(strategy.closes, [1.0, 2.0, 3.0]);
    assert!(wallet.pending.is_empty());
    assert_eq!(wallet.calls, ["observe", "advance", "observe", "advance", "observe", "advance"]);
}

/// An unready strategy is fed, and does not trade.
#[test]
fn an_unready_strategy_waits() {
    let mut wallet: Paper<&'static str> = Paper::new(1_000.0);
    let mut strategy = Tester::new("X", Plan::AllIn(1.0));
    strategy.ready = false;
    let report = run(&mut strategy, &mut wallet, &snapshots(&[1.0, 2.0]));
    assert!(report.fills.is_empty());
    assert_eq!(report.equity_curve.len(), 2);
    assert_eq!(report.carry_coverage, Some((3, 2)));
}

/// The rebalance gate is forced on the last bar only, and let go again.
#[test]
fn a_rebalance_is_forced_on_the_last_bar() {
    let mut wallet: Paper<&'static str> = Paper::new(1_000.0);
    let mut strategy = Tester::new("X", Plan::Idle);
    let hold = ["Y", "Z"];
    run_rebalancing(&mut strategy, &mut wallet, &snapshots(&[1.0, 2.0, 3.0]), &hold);
    assert_eq!(strategy.gates, [Some(2), None]);
    assert!(strategy.gate.is_none());
}

/// Without a bar the rebalance gate is forced at once; an unready strategy is refused.
#[test]
fn a_rebalance_needs_no_bar() {
    let mut wallet: Paper<&'static str> = Paper::new(1_000.0);
    let mut strategy = Tester::new("X", Plan::AllIn(1.0));
    let report = rebalance_now(&mut strategy, &mut wallet, &[]).unwrap();
    assert!(report.equity_curve.is_empty());
    assert_eq!(num(report.initial_equity), 1_000.0);
    assert_eq!(strategy.gates, [Some(0), None]);
    assert_eq!(wallet.pending.len(), 1);

    strategy.ready = false;
    let err = rebalance_now(&mut strategy, &mut wallet, &[]).unwrap_err();
    assert!(err.contains("has not finished warming up"), "{err}");
    assert_eq!(wallet.pending.len(), 1, "nothing was submitted");
}

/// Closing out books fills on the last bar and overwrites the last point.
#[test]
fn a_flattened_run_ends_flat() {
    let snaps = named(&[100.0, 100.0, 110.0]);
    let mut wallet: Paper<String> = Paper::new(1_000.0);
    wallet.commission = 0.01;
    let mut strategy = Tester::new("X".to_string(), Plan::AllIn(1.0));
    let mut report = run(&mut strategy, &mut wallet, &snaps);
    let marked = curve(&report)[2];
    apply_closeout(&mut strategy, &mut wallet, &snaps, &mut report, &Closeout::Flatten);
    assert_eq!(wallet.units(&"X".to_string()), 0.0);
    assert_eq!(report.equity_curve.len(), 3);
    assert!(curve(&report)[2] < marked, "closing costs something");
    assert_eq!(report.fills.last().unwrap().bar, 2);
}

/// A run whose positions are carried is left alone.
#[test]
fn carrying_changes_nothing() {
    let snaps = named(&[100.0, 100.0]);
    let mut wallet: Paper<String> = Paper::new(1_000.0);
    let mut strategy = Tester::new("X".to_string(), Plan::AllIn(1.0));
    let mut report = run(&mut strategy, &mut wallet, &snaps);
    let before = report.clone();
    apply_closeout(&mut strategy, &mut wallet, &snaps, &mut report, &Closeout::default());
    assert_eq!(report, before);
    assert!(Closeout::default().is_carry());
}

/// Named symbols are driven to their targets in ascending order.
#[test]
fn held_symbols_are_settled_in_order() {
    let mut targets: OrdMap<String, Real> = OrdMap::new();
    targets.insert("B".to_string(), dbl(2.0));
    targets.insert("A".to_string(), dbl(1.0));
    let mut wallet: Paper<String> = Paper::new(1_000.0);
    wallet.mark(&"A".to_string(), 10.0);
    wallet.mark(&"B".to_string(), 10.0);
    let mut strategy = Tester::new("X".to_string(), Plan::Idle);
    let mut report = run(&mut strategy, &mut wallet, &named(&[100.0]));
    apply_closeout(
        &mut strategy,
        &mut wallet,
        &named(&[100.0]),
        &mut report,
        &Closeout::Hold(targets),
    );
    let symbols: Vec<&str> = report.fills.iter().map(|f| f.order.symbol.as_str()).collect();
    assert_eq!(symbols, ["A", "B"]);
    assert_eq!(wallet.units(&"B".to_string()), 2.0);
}

#[test]
fn a_forced_rebalance_names_what_it_holds() {
    let mut hold: OrdMap<String, Real> = OrdMap::new();
    hold.insert("B".to_string(), dbl(0.0));
    hold.insert("A".to_string(), dbl(0.0));
    let rebalance = Closeout::Rebalance { hold };
    assert_eq!(rebalance.forced_rebalance_hold().unwrap(), ["A", "B"]);
    assert!(Closeout::Flatten.forced_rebalance_hold().is_none());
}
