//! Orders: sides, kinds, sizes, and the records of what an account did.

use vstd::prelude::*;

use crate::number::Real;
use crate::table::equal_ignoring_case;
use crate::table;
use crate::text;

verus! {

/// Which way an order trades.
#[derive(Clone, Copy, Debug, PartialEq, Eq, Structural)]
pub enum Side {
    Buy,
    Sell,
}

/// What an order is triggered by.
#[derive(Clone, Copy, Debug, PartialEq, Eq, Structural)]
pub enum OrderKind {
    Market,
    Stop,
    TakeProfit,
    Limit,
}

/// How much to trade.
#[derive(Clone, Copy, Debug, PartialEq, Eq, Structural)]
pub enum Size {
    /// A number of units.
    Units(Real),
    /// A fraction of the cash.
    FundsFraction(Real),
    /// A fraction of the equity.
    ValueFraction(Real),
    /// A fraction of the position.
    PositionFraction(Real),
}

/// Why an account refused an order.
#[derive(Clone, Debug, PartialEq, Eq)]
pub enum WalletError {
    InsufficientFunds,
    Venue(String),
}

/// A filled order.
#[derive(Clone, Debug, PartialEq, Eq)]
pub struct Order<Sym> {
    pub symbol: Sym,
    pub side: Side,
    pub units: Real,
    pub price: Real,
    pub kind: OrderKind,
    pub id: u64,
    pub commission: Real,
    /// The units that were asked for.
    pub requested_units: Real,
    /// The units that were traded, as a fraction of those asked for.
    pub fill_ratio: Real,
    /// Whether that fraction is low enough to be worth reporting.
    pub materially_fitted: bool,
}

/// A refused order.
#[derive(Clone, Debug, PartialEq, Eq)]
pub struct Rejection<Sym> {
    pub symbol: Sym,
    pub error: WalletError,
    pub kind: OrderKind,
    pub id: u64,
}

/// What an account answers to a submission.
#[derive(Clone, Debug, PartialEq, Eq)]
pub enum Ack<Sym> {
    Filled(Order<Sym>),
    Working(u64),
}

/// The side that a word names: `buy` or `long`, `sell` or `short`, in any case.
pub open spec fn side_named(word: Seq<char>) -> Option<Side> {
    if table::same_but_case(word, "buy"@) || table::same_but_case(word, "long"@) {
        Some(Side::Buy)
    } else if table::same_but_case(word, "sell"@) || table::same_but_case(word, "short"@) {
        Some(Side::Sell)
    } else {
        None
    }
}

/// The side that a word names.
pub fn parse_side(word: &str) -> (out: Result<Side, String>)
    ensures
        match side_named(word@) {
            Some(s) => out == Ok::<Side, String>(s),
            None => out matches Err(e) && e@ == "side must be 'buy' or 'sell'"@,
        },
{
    if equal_ignoring_case(word, "buy") || equal_ignoring_case(word, "long") {
        Ok(Side::Buy)
    } else if equal_ignoring_case(word, "sell") || equal_ignoring_case(word, "short") {
        Ok(Side::Sell)
    } else {
        Err("side must be 'buy' or 'sell'".to_owned())
    }
}

/// The word for a side.
pub open spec fn side_word(side: Side) -> Seq<char> {
    match side {
        Side::Buy => "buy"@,
        Side::Sell => "sell"@,
    }
}

/// The word for a side.
pub fn side_str(side: Side) -> (out: &'static str)
    ensures
        out@ == side_word(side),
{
    match side {
        Side::Buy => "buy",
        Side::Sell => "sell",
    }
}

/// The word for an order kind.
pub open spec fn kind_word(kind: OrderKind) -> Seq<char> {
    match kind {
        OrderKind::Market => "market"@,
        OrderKind::Stop => "stop"@,
        OrderKind::TakeProfit => "take_profit"@,
        OrderKind::Limit => "limit"@,
    }
}

/// The word for an order kind.
pub fn kind_str(kind: OrderKind) -> (out: &'static str)
    ensures
        out@ == kind_word(kind),
{
    match kind {
        OrderKind::Market => "market",
        OrderKind::Stop => "stop",
        OrderKind::TakeProfit => "take_profit",
        OrderKind::Limit => "limit",
    }
}

/// The order kind that a word names, in any case.
pub open spec fn kind_named(word: Seq<char>) -> Option<OrderKind> {
    if table::same_but_case(word, "market"@) {
        Some(OrderKind::Market)
    } else if table::same_but_case(word, "stop"@) {
        Some(OrderKind::Stop)
    } else if table::same_but_case(word, "take_profit"@) {
        Some(OrderKind::TakeProfit)
    } else if table::same_but_case(word, "limit"@) {
        Some(OrderKind::Limit)
    } else {
        None
    }
}

/// The order kind that a word names.
pub fn parse_kind(word: &str) -> (out: Result<OrderKind, String>)
    ensures
        match kind_named(word@) {
            Some(k) => out == Ok::<OrderKind, String>(k),
            None => out matches Err(e) && e@
                == "kind must be 'market', 'stop', 'take_profit' or 'limit'"@,
        },
{
    if equal_ignoring_case(word, "market") {
        Ok(OrderKind::Market)
    } else if equal_ignoring_case(word, "stop") {
        Ok(OrderKind::Stop)
    } else if equal_ignoring_case(word, "take_profit") {
        Ok(OrderKind::TakeProfit)
    } else if equal_ignoring_case(word, "limit") {
        Ok(OrderKind::Limit)
    } else {
        Err("kind must be 'market', 'stop', 'take_profit' or 'limit'".to_owned())
    }
}

impl Size {
    /// The word for what the size counts.
    pub open spec fn word(self) -> Seq<char> {
        match self {
            Size::Units(_) => "units"@,
            Size::FundsFraction(_) => "funds_frac"@,
            Size::ValueFraction(_) => "value_frac"@,
            Size::PositionFraction(_) => "position_frac"@,
        }
    }

    /// The number of the size.
    pub open spec fn amount(self) -> Real {
        match self {
            Size::Units(v) => v,
            Size::FundsFraction(v) => v,
            Size::ValueFraction(v) => v,
            Size::PositionFraction(v) => v,
        }
    }

    /// The word for what the size counts.
    pub fn kind(self) -> (out: &'static str)
        ensures
            out@ == self.word(),
    {
        match self {
            Size::Units(_) => "units",
            Size::FundsFraction(_) => "funds_frac",
            Size::ValueFraction(_) => "value_frac",
            Size::PositionFraction(_) => "position_frac",
        }
    }

    /// The number of the size.
    pub fn value(self) -> (out: Real)
        ensures
            out == self.amount(),
    {
        match self {
            Size::Units(v) => v,
            Size::FundsFraction(v) => v,
            Size::ValueFraction(v) => v,
            Size::PositionFraction(v) => v,
        }
    }
}

/// The size of a kind and a number.
pub open spec fn size_named(kind: Seq<char>, value: Real) -> Option<Size> {
    if kind == "units"@ {
        Some(Size::Units(value))
    } else if kind == "funds_frac"@ {
        Some(Size::FundsFraction(value))
    } else if kind == "value_frac"@ {
        Some(Size::ValueFraction(value))
    } else if kind == "position_frac"@ {
        Some(Size::PositionFraction(value))
    } else {
        None
    }
}

/// The size of a kind and a number.
pub fn rebuild_size(kind: &str, value: Real) -> (out: Result<Size, String>)
    ensures
        match size_named(kind@, value) {
            Some(s) => out == Ok::<Size, String>(s),
            None => out matches Err(e) && e@ == "_rebuild_size: unknown kind "@ + text::debug_text(
                kind@,
            ),
        },
{
    if text::same(kind, "units") {
        Ok(Size::Units(value))
    } else if text::same(kind, "funds_frac") {
        Ok(Size::FundsFraction(value))
    } else if text::same(kind, "value_frac") {
        Ok(Size::ValueFraction(value))
    } else if text::same(kind, "position_frac") {
        Ok(Size::PositionFraction(value))
    } else {
        let mut message: String = "_rebuild_size: unknown kind ".to_owned();
        message.append(&text::debug_quoted(kind));
        Err(message)
    }
}

/// The fill that an acknowledgement holds; none while the order is working.
pub fn filled_order<Sym>(ack: Ack<Sym>) -> (out: Option<Order<Sym>>)
    ensures
        out == (match ack {
            Ack::Filled(order) => Some(order),
            Ack::Working(_) => None,
        }),
{
    match ack {
        Ack::Filled(order) => Some(order),
        Ack::Working(_) => None,
    }
}

/// The bits of the number one.
pub const ONE: u64 = 0x3ff0_0000_0000_0000;

/// How a fill differs from what was asked for.
#[derive(Clone, Copy, Debug, PartialEq, Eq, Structural)]
pub struct Fitting {
    /// The units that were asked for.
    pub requested: Real,
    /// The units that were traded, as a fraction of those.
    pub ratio: Real,
    /// Whether that fraction is low enough to be worth reporting.
    pub material: bool,
}

/// The order of these values. Without a fitting it got what it asked for.
pub open spec fn order_of<Sym>(
    symbol: Sym,
    side: Side,
    units: Real,
    price: Real,
    kind: OrderKind,
    id: u64,
    commission: Real,
    fitting: Option<Fitting>,
) -> Order<Sym> {
    Order {
        symbol,
        side,
        units,
        price,
        kind,
        id,
        commission,
        requested_units: match fitting {
            Some(f) => f.requested,
            None => units,
        },
        fill_ratio: match fitting {
            Some(f) => f.ratio,
            None => Real { bits: ONE },
        },
        materially_fitted: match fitting {
            Some(f) => f.material,
            None => false,
        },
    }
}

/// Build an order from words and numbers; a side or a kind that no word names is
/// refused, the side first.
pub fn build_order<Sym>(
    symbol: Sym,
    side: &str,
    units: Real,
    price: Real,
    kind: &str,
    id: u64,
    commission: Real,
    fitting: Option<Fitting>,
) -> (out: Result<Order<Sym>, String>)
    ensures
        match (side_named(side@), kind_named(kind@)) {
            (None, _) => out matches Err(e) && e@ == "side must be 'buy' or 'sell'"@,
            (Some(_), None) => out matches Err(e) && e@
                == "kind must be 'market', 'stop', 'take_profit' or 'limit'"@,
            (Some(s), Some(k)) => out == Ok::<Order<Sym>, String>(
                order_of(symbol, s, units, price, k, id, commission, fitting),
            ),
        },
{
    let side: Side = match parse_side(side) {
        Ok(s) => s,
        Err(e) => {
            return Err(e);
        },
    };
    let kind: OrderKind = match parse_kind(kind) {
        Ok(k) => k,
        Err(e) => {
            return Err(e);
        },
    };
    let (requested_units, fill_ratio, materially_fitted): (Real, Real, bool) = match fitting {
        Some(f) => (f.requested, f.ratio, f.material),
        None => (units, Real { bits: ONE }, false),
    };
    Ok(
        Order {
            symbol,
            side,
            units,
            price,
            kind,
            id,
            commission,
            requested_units,
            fill_ratio,
            materially_fitted,
        },
    )
}

/// An order that is taken apart into words and numbers is built again from them.
pub proof fn order_rebuilds<Sym>(o: Order<Sym>)
    ensures
        side_named(side_word(o.side)) == Some(o.side),
        kind_named(kind_word(o.kind)) == Some(o.kind),
        order_of(
            o.symbol,
            o.side,
            o.units,
            o.price,
            o.kind,
            o.id,
            o.commission,
            Some(
                Fitting {
                    requested: o.requested_units,
                    ratio: o.fill_ratio,
                    material: o.materially_fitted,
                },
            ),
        ) == o,
{
    side_reads_back(o.side);
    kind_reads_back(o.kind);
}

/// Naming a side and reading the word back gives that side.
pub proof fn side_reads_back(side: Side)
    ensures
        side_named(side_word(side)) == Some(side),
{
    reveal_strlit("buy");
    reveal_strlit("long");
    reveal_strlit("sell");
    reveal_strlit("short");
    if side is Sell {
        assert("sell"@.len() != "buy"@.len());
        assert(table::small("sell"@[0]) != table::small("long"@[0]));
    }
}

/// Naming an order kind and reading the word back gives that kind.
pub proof fn kind_reads_back(kind: OrderKind)
    ensures
        kind_named(kind_word(kind)) == Some(kind),
{
    reveal_strlit("market");
    reveal_strlit("stop");
    reveal_strlit("take_profit");
    reveal_strlit("limit");
}

/// Naming a size and building it again gives that size.
pub proof fn size_rebuilds(size: Size)
    ensures
        size_named(size.word(), size.amount()) == Some(size),
{
    reveal_strlit("units");
    reveal_strlit("funds_frac");
    reveal_strlit("value_frac");
    reveal_strlit("position_frac");
    assert("units"@[0] == 'u');
    assert("funds_frac"@[0] == 'f');
    assert("value_frac"@[0] == 'v');
    assert("position_frac"@[0] == 'p');
}

/// `buy` and `long` name the one side, `sell` and `short` the other, in any case, and
/// nothing else names a side.
pub proof fn words_name_their_sides(word: Seq<char>)
    ensures
        side_named(word) == Some(Side::Buy) <==> table::same_but_case(word, "buy"@)
            || table::same_but_case(word, "long"@),
        side_named(word) == Some(Side::Sell) <==> table::same_but_case(word, "sell"@)
            || table::same_but_case(word, "short"@),
{
    reveal_strlit("buy");
    reveal_strlit("long");
    reveal_strlit("sell");
    reveal_strlit("short");
    assert("buy"@.len() == 3 && "long"@.len() == 4 && "sell"@.len() == 4 && "short"@.len() == 5);
    if table::same_but_case(word, "long"@) && table::same_but_case(word, "sell"@) {
        assert("long"@[0] == 'l' && "sell"@[0] == 's');
        assert(table::small(word[0]) == table::small('l'));
        assert(table::small(word[0]) == table::small('s'));
    }
}

/// Each word for a size names its own kind, with the value that comes with it.
pub proof fn words_name_their_sizes(value: Real)
    ensures
        size_named("units"@, value) == Some(Size::Units(value)),
        size_named("funds_frac"@, value) == Some(Size::FundsFraction(value)),
        size_named("value_frac"@, value) == Some(Size::ValueFraction(value)),
        size_named("position_frac"@, value) == Some(Size::PositionFraction(value)),
        Size::Units(value).word() == "units"@,
        Size::FundsFraction(value).word() == "funds_frac"@,
        Size::ValueFraction(value).word() == "value_frac"@,
        Size::PositionFraction(value).word() == "position_frac"@,
{
    size_rebuilds(Size::Units(value));
    size_rebuilds(Size::FundsFraction(value));
    size_rebuilds(Size::ValueFraction(value));
    size_rebuilds(Size::PositionFraction(value));
}

/// Each word for a kind of order names its own kind.
pub proof fn words_name_their_kinds()
    ensures
        kind_named("market"@) == Some(OrderKind::Market),
        kind_named("stop"@) == Some(OrderKind::Stop),
        kind_named("take_profit"@) == Some(OrderKind::TakeProfit),
        kind_named("limit"@) == Some(OrderKind::Limit),
{
    kind_reads_back(OrderKind::Market);
    kind_reads_back(OrderKind::Stop);
    kind_reads_back(OrderKind::TakeProfit);
    kind_reads_back(OrderKind::Limit);
}

/// An order has each of its parts where it was put. One that was not cut was asked for
/// its own units, in full.
pub proof fn an_order_keeps_its_parts<Sym>(
    symbol: Sym,
    side: Side,
    units: Real,
    price: Real,
    kind: OrderKind,
    id: u64,
    commission: Real,
    fitting: Option<Fitting>,
)
    ensures
        ({
            let o = order_of(symbol, side, units, price, kind, id, commission, fitting);
            &&& o.symbol == symbol && o.side == side && o.units == units && o.price == price
            &&& o.kind == kind && o.id == id && o.commission == commission
            &&& fitting is None ==> o.requested_units == units && o.fill_ratio == (Real {
                bits: 0x3ff0_0000_0000_0000,
            }) && !o.materially_fitted
            &&& fitting matches Some(f) ==> o.requested_units == f.requested && o.fill_ratio
                == f.ratio && o.materially_fitted == f.material
        }),
{
}

} // verus!
