//! The plans that strategies are built from.

use fugazi::backtest::RunReport;
use fugazi::blueprint::{
    check_distinct, check_max_gross, pairs_signal, pairs_source, quantile, rules, selection_inner,
    show_order, show_rejected, show_report, show_size, snapshot_signal, snapshot_source, threshold,
    top_bottom, BasketBlueprint, BasketSelection, ChildKind, Factory, MultiBlueprint,
    PairsBlueprint, PortfolioBlueprint, PortfolioStep, PresetSpec, Root, Share, Shown,
    SingleBlueprint, Step,
};
use fugazi::number::Real;
use fugazi::orders::{OrderKind, Side, Size};

fn dbl(x: f64) -> Real {
    Real { bits: x.to_bits() }
}

fn shown(x: f64) -> Shown {
    Shown { value: dbl(x), text: format!("{x}") }
}

type Single = SingleBlueprint<&'static str, &'static str>;
type Pairs = PairsBlueprint<&'static str, &'static str>;
type Portfolio = PortfolioBlueprint<u8, &'static str>;

#[test]
fn a_strategy_is_built_side_by_side() {
    let plan = Single::new("BTC".to_string())
        .rebalance_on(("monthly", Root::Snapshot))
        .unwrap()
        .short_on(("down", Root::Candle), Some(("up", Root::Atom)))
        .unwrap()
        .long_on(("up", Root::Atom), None)
        .unwrap()
        .position_sizing(("half", Root::Constant))
        .unwrap();
    assert_eq!(plan.show(), "Strategy(symbol='BTC')");
    let (preset, steps) = plan.materialize();
    assert!(preset.is_none());
    assert!(matches!(
        steps.as_slice(),
        [
            Step::LongOn { enter: "up", exit: None },
            Step::ShortOn { enter: "down", exit: Some("up") },
            Step::SizedBy("half"),
            Step::RebalanceOn("monthly")
        ]
    ));
}

/// A recipe takes a rebalance signal and nothing else.
#[test]
fn a_recipe_takes_only_a_rebalance() {
    let recipe =
        || Single::from_preset(PresetSpec::MaCrossover { symbol: "BTC".into(), fast: 2, slow: 5 });
    assert_eq!(recipe().symbol, "BTC");
    assert_eq!(recipe().show(), "Strategy(preset, symbol='BTC')");
    let up = ("up", Root::Candle);
    assert!(recipe().long_on(up, None).unwrap_err().starts_with("long_on is not supported"));
    assert!(recipe().short_on(up, None).unwrap_err().starts_with("short_on is not supported"));
    assert!(recipe().position_sizing(up).unwrap_err().starts_with("position_sizing is not"));
    let weekly = ("weekly", Root::Snapshot);
    let (preset, steps) = recipe().rebalance_on(weekly).unwrap().materialize();
    assert!(matches!(preset, Some(PresetSpec::MaCrossover { fast: 2, slow: 5, .. })));
    assert!(matches!(steps.as_slice(), [Step::RebalanceOn("weekly")]));
}

/// A bare value is read by nothing.
#[test]
fn a_bare_value_is_refused() {
    let bare = ("x", Root::Value);
    let signal =
        "a strategy signal must be candle- or snapshot-rooted, not a bare value (Real) signal";
    assert_eq!(snapshot_signal(bare).unwrap_err(), signal);
    assert_eq!(pairs_signal(bare).unwrap_err(), signal);
    assert!(snapshot_source(bare).unwrap_err().starts_with("a sizing source must be"));
    assert!(pairs_source(bare).unwrap_err().starts_with("a sizing source must be"));
    assert_eq!(snapshot_signal(("x", Root::Candle)), Ok("x"));
    let single = || Single::new("BTC".to_string());
    assert_eq!(single().long_on(("x", Root::Atom), Some(bare)).unwrap_err(), signal);
    assert_eq!(single().rebalance_on(bare).unwrap_err(), signal);
    assert!(single().position_sizing(bare).is_err());
}

#[test]
fn a_pair_names_its_series() {
    assert_eq!(pairs_signal(("x", Root::Snapshot)), Ok("x"));
    assert_eq!(pairs_source(("x", Root::Constant)), Ok("x"));
    let err = pairs_source(("x", Root::Candle)).unwrap_err();
    assert!(err.contains("this source has no series to read"), "{err}");
    assert!(pairs_signal(("x", Root::Atom)).unwrap_err().contains("this signal has no series"));

    let pair = || Pairs::new("A".to_string(), "B".to_string());
    assert_eq!(pair().show(), "PairsStrategy(left='A', right='B')");
    let steps = pair()
        .long_spread_on(("in", Root::Snapshot), Some(("out", Root::Constant)))
        .unwrap()
        .long_spread_stop_loss(("stop", Root::Snapshot))
        .unwrap()
        .long_spread_take_profit(("target", Root::Constant))
        .unwrap()
        .short_spread_stop_loss(("stop2", Root::Constant))
        .unwrap()
        .short_spread_take_profit(("target2", Root::Constant))
        .unwrap()
        .position_sizing(("half", Root::Constant))
        .unwrap()
        .rebalance_on(("monthly", Root::Snapshot))
        .unwrap()
        .materialize();
    assert!(matches!(
        steps.as_slice(),
        [
            Step::LongOn { enter: "in", exit: Some("out") },
            Step::LongStop("stop"),
            Step::LongTarget("target"),
            Step::ShortStop("stop2"),
            Step::ShortTarget("target2"),
            Step::SizedBy("half"),
            Step::RebalanceOn("monthly")
        ]
    ));
    assert!(pair().short_spread_on(("in", Root::Snapshot), Some(("out", Root::Candle))).is_err());
    let renamed = pair().on(("in", Root::Snapshot), None).unwrap().materialize();
    assert!(matches!(renamed.as_slice(), [Step::LongOn { enter: "in", exit: None }]));
}

/// A selection begins with everything and narrows it from the inside.
#[test]
fn selections_begin_with_everything() {
    assert!(matches!(*selection_inner(None), BasketSelection::Everything));
    let narrow = quantile(dbl(0.1), dbl(0.1), Some(threshold(dbl(1.0), dbl(-1.0), None)));
    let order = rules(&narrow);
    assert!(matches!(order[0], BasketSelection::Everything));
    assert!(matches!(order[1], BasketSelection::Threshold { .. }));
    assert!(matches!(order[2], BasketSelection::Quantile { .. }));
    assert_eq!(order.len(), 3);
    assert!(matches!(
        top_bottom(2, 1, None),
        BasketSelection::TopBottom { longs: 2, shorts: 1, .. }
    ));
}

#[test]
fn baskets_and_universes_are_built_in_order() {
    let symbols = vec!["A".to_string(), "B".to_string()];
    let multi: MultiBlueprint<&str, &str> = MultiBlueprint::new()
        .long_on(Factory::Callable("up"), None)
        .unwrap()
        .all_of(symbols.clone());
    assert!(matches!(
        multi.materialize().as_slice(),
        [Step::LongOn { enter: "up", exit: None }, Step::AllOf(s)] if *s == symbols
    ));
    let basket: BasketBlueprint<&str, &str> = BasketBlueprint::new()
        .scored_by(Factory::Callable("momentum"))
        .unwrap()
        .sized_by(Factory::Callable("equal"))
        .unwrap()
        .quantile(dbl(0.5), dbl(0.5), None)
        .threshold(dbl(1.0), dbl(-1.0), None)
        .top_bottom(1, 0, None)
        .rebalance_on(("monthly", Root::Snapshot))
        .unwrap()
        .any_of(symbols.clone());
    assert!(matches!(
        basket.materialize().as_slice(),
        [
            Step::ScoredBy("momentum"),
            Step::SizedBy("equal"),
            Step::Select(BasketSelection::TopBottom { .. }),
            Step::BalanceSides(true),
            Step::RebalanceOn("monthly"),
            Step::AnyOf(_)
        ]
    ));
    let bare: BasketBlueprint<&str, &str> = BasketBlueprint::new().balance_sides(false);
    assert!(matches!(bare.materialize().as_slice(), [Step::BalanceSides(false)]));
}

/// Where a function of a symbol is wanted, anything else is refused by name.
#[test]
fn only_functions_of_a_symbol_are_taken() {
    let multi = || MultiBlueprint::<&str, &str>::new();
    let given = || Factory::Other("Indicator".to_string());
    assert_eq!(
        multi().long_on(Factory::Callable("up"), Some(given())).unwrap_err(),
        "long_on() takes a per-symbol factory — a callable `sym -> Signal` — but got Indicator. \
         Each symbol needs its own chain, rooted on that symbol, so the argument has to be a \
         function of the symbol: `.long_on(lambda sym: rsi(close(pick(sym)), 14))`."
    );
    assert!(multi().short_on(given(), None).unwrap_err().starts_with("short_on() takes"));
    let sizing = multi().position_sizing(given()).unwrap_err();
    assert!(sizing.contains("`sym -> Indicator`"), "{sizing}");
    let basket = || BasketBlueprint::<&str, &str>::new();
    assert!(basket().scored_by(given()).unwrap_err().starts_with("scored_by() takes"));
    assert!(basket().sized_by(given()).unwrap_err().starts_with("sized_by() takes"));
}

#[test]
fn a_portfolio_refuses_what_it_cannot_hold() {
    let two = || {
        Portfolio::new()
            .add("a".to_string(), 1, ChildKind::Strategy)
            .unwrap()
            .add("b".to_string(), 2, ChildKind::Basket)
            .unwrap()
    };
    assert_eq!(two().show(), "Portfolio(children=[a, b])");
    assert_eq!(
        two().add("a".to_string(), 3, ChildKind::Pairs).unwrap_err(),
        "Portfolio.add: duplicate child name `a`"
    );
    assert!(two().add("c".to_string(), 3, ChildKind::Portfolio).unwrap_err().contains("cannot be"));
    assert!(two().add("c".to_string(), 3, ChildKind::Other).unwrap_err().contains("must be a"));
    assert_eq!(
        Portfolio::new().check(dbl(1.0)).unwrap_err(),
        "Portfolio.run: add at least one child strategy first"
    );
    assert!(two().check(dbl(1.0)).is_ok());
    assert!(two().rebalance_on(("monthly", Root::Value)).is_err());
    assert_eq!(two().rebalance_on(("monthly", Root::Atom)).unwrap().rebalance, Some("monthly"));
    let short = two().weigh(vec![dbl(1.0)]).unwrap();
    assert_eq!(short.check(dbl(1.0)).unwrap_err(), "Portfolio.weights: 1 weights for 2 children");
    assert!(two().weigh(vec![dbl(-1.0), dbl(2.0)]).unwrap_err().contains("non-negative"));
    let nothing = two().weigh(vec![dbl(0.0), dbl(0.0)]).unwrap();
    assert!(nothing.check(dbl(0.0)).unwrap_err().contains("must not sum to zero"));
    assert!(two().weigh(vec![dbl(1.0), dbl(2.0)]).unwrap().check(dbl(3.0)).is_ok());
}

#[test]
fn an_account_is_checked() {
    assert!(check_max_gross(dbl(2.0), "2").is_ok());
    for (x, text) in [(0.0, "0"), (-1.0, "-1"), (f64::NAN, "NaN"), (f64::INFINITY, "inf")] {
        let want = format!("max_gross must be finite and > 0, got {text}");
        assert_eq!(check_max_gross(dbl(x), text).unwrap_err(), want);
    }
    let symbols = |parts: &[&str]| parts.iter().map(|p| p.to_string()).collect::<Vec<_>>();
    assert!(check_distinct(&symbols(&["A", "B"])).is_ok());
    assert_eq!(
        check_distinct(&symbols(&["A", "B", "A"])).unwrap_err(),
        "set_costs_for_all: symbol \"A\" appears more than once"
    );
}

#[test]
fn an_order_is_shown_with_what_it_cost() {
    let plain = show_order(
        "BTC", Side::Buy, &shown(1.5), "100", OrderKind::Market, 3, &shown(0.0), &shown(1.5),
    );
    assert_eq!(
        plain,
        "Order(symbol='BTC', side='buy', units=1.5, price=100, kind='market', id=3)"
    );
    let fitted = show_order(
        "BTC", Side::Sell, &shown(1.5), "100", OrderKind::Stop, 4, &shown(0.25), &shown(2.0),
    );
    assert_eq!(
        fitted,
        "Order(symbol='BTC', side='sell', units=1.5, price=100, kind='stop', id=4, \
         commission=0.25, requested_units=2)"
    );
}

#[test]
fn sizes_refusals_and_reports_are_shown() {
    assert_eq!(show_size(Size::ValueFraction(dbl(0.5)), "0.5"), "Size.value_frac(0.5)");
    assert_eq!(
        show_rejected(3, "BTC", "no funds", OrderKind::Stop),
        "Rejected(bar=3, symbol='BTC', error='no funds', kind='stop')"
    );
    let mut report: RunReport<String> =
        RunReport::new(vec![dbl(1.0), dbl(0.0)], dbl(1.0), None, Some(1));
    assert_eq!(
        show_report(&report, "1"),
        "RunReport(bars=2, fills=0, rejections=0, initial_equity=1, ruin_bar=Some(1))"
    );
    report.ruin_bar = None;
    assert!(show_report(&report, "1").ends_with("ruin_bar=None)"));
}

/// A portfolio adds its parts in order, weighs them, and wires its rebalance.
#[test]
fn a_portfolio_is_built_in_order() {
    let two = || {
        Portfolio::new()
            .add("b".to_string(), 1, ChildKind::Strategy)
            .unwrap()
            .add("a".to_string(), 2, ChildKind::Pairs)
            .unwrap()
    };
    let equal = two().materialize(dbl(10.0), dbl(0.0)).unwrap();
    assert!(matches!(
        equal.as_slice(),
        [
            PortfolioStep::InitialEquity(seed),
            PortfolioStep::Add(b, 1, Share::Equal { parts: 2 }),
            PortfolioStep::Add(a, 2, Share::Equal { parts: 2 }),
            PortfolioStep::EqualWeights
        ] if *seed == dbl(10.0) && b == "b" && a == "a"
    ));
    let fixed = two()
        .weigh(vec![dbl(1.0), dbl(3.0)])
        .unwrap()
        .rebalance_on(("monthly", Root::Snapshot))
        .unwrap()
        .materialize(dbl(10.0), dbl(4.0))
        .unwrap();
    assert!(matches!(
        fixed.as_slice(),
        [
            PortfolioStep::InitialEquity(_),
            PortfolioStep::Add(_, 1, one),
            PortfolioStep::Add(_, 2, three),
            PortfolioStep::FixedWeights(w),
            PortfolioStep::RebalanceOn("monthly")
        ] if *w == [dbl(1.0), dbl(3.0)]
            && *one == Share::Weighed { weight: dbl(1.0), total: dbl(4.0) }
            && *three == Share::Weighed { weight: dbl(3.0), total: dbl(4.0) }
    ));
    assert_eq!(
        Portfolio::new().materialize(dbl(10.0), dbl(1.0)).unwrap_err(),
        "Portfolio.run: add at least one child strategy first"
    );
}
