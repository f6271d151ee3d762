//! The words for sides, kinds and sizes.

use fugazi::number::Real;
use fugazi::orders::{
    build_order, filled_order, kind_str, parse_kind, parse_side, rebuild_size, side_str, Ack,
    Fitting, Order, OrderKind, Side, Size,
};

fn dbl(x: f64) -> Real {
    Real { bits: x.to_bits() }
}

#[test]
fn sides_are_read_in_any_case() {
    assert_eq!(parse_side("BUY"), Ok(Side::Buy));
    assert_eq!(parse_side("long"), Ok(Side::Buy));
    assert_eq!(parse_side("Sell"), Ok(Side::Sell));
    assert_eq!(parse_side("short"), Ok(Side::Sell));
    assert_eq!(parse_side("hold").unwrap_err(), "side must be 'buy' or 'sell'");
}

#[test]
fn kinds_come_back_from_their_words() {
    for kind in [OrderKind::Market, OrderKind::Stop, OrderKind::TakeProfit, OrderKind::Limit] {
        assert_eq!(parse_kind(kind_str(kind)), Ok(kind));
    }
    for side in [Side::Buy, Side::Sell] {
        assert_eq!(parse_side(side_str(side)), Ok(side));
    }
    assert!(parse_kind("iceberg").is_err());
}

#[test]
fn sizes_come_back_from_their_parts() {
    for size in [
        Size::Units(dbl(1.5)),
        Size::FundsFraction(dbl(0.5)),
        Size::ValueFraction(dbl(0.25)),
        Size::PositionFraction(dbl(1.0)),
    ] {
        assert_eq!(rebuild_size(size.kind(), size.value()), Ok(size));
    }
    assert_eq!(
        rebuild_size("a\"b", dbl(1.0)).unwrap_err(),
        "_rebuild_size: unknown kind \"a\\\"b\""
    );
}

#[test]
fn only_a_fill_has_an_order() {
    let order = Order {
        symbol: "X",
        side: Side::Buy,
        units: dbl(1.0),
        price: dbl(2.0),
        kind: OrderKind::Market,
        id: 7,
        commission: dbl(0.0),
        requested_units: dbl(1.0),
        fill_ratio: dbl(1.0),
        materially_fitted: false,
    };
    assert_eq!(filled_order(Ack::Filled(order.clone())), Some(order));
    assert_eq!(filled_order(Ack::<&str>::Working(7)), None);
}

/// An order is built from words, and comes back from its own.
#[test]
fn orders_are_built_from_words() {
    let plain =
        build_order("X", "LONG", dbl(2.0), dbl(10.0), "market", 1, dbl(0.5), None).unwrap();
    assert_eq!(plain.side, Side::Buy);
    assert_eq!(plain.requested_units, dbl(2.0));
    assert_eq!(plain.fill_ratio, dbl(1.0));
    assert!(!plain.materially_fitted);
    let fitting = Fitting { requested: dbl(4.0), ratio: dbl(0.5), material: true };
    let o = build_order("X", "sell", dbl(2.0), dbl(10.0), "stop", 2, dbl(0.0), Some(fitting))
        .unwrap();
    let again = build_order(
        o.symbol,
        side_str(o.side),
        o.units,
        o.price,
        kind_str(o.kind),
        o.id,
        o.commission,
        Some(fitting),
    );
    assert_eq!(again, Ok(o));
    let refused = |side, kind| {
        build_order("X", side, dbl(2.0), dbl(10.0), kind, 1, dbl(0.0), None).unwrap_err()
    };
    assert_eq!(refused("up", "down"), "side must be 'buy' or 'sell'");
    assert!(refused("buy", "down").starts_with("kind must be"));
}
