//! Trading calendars: how many bars a year holds, how long a window is in
//! bars, which cadence a column of times has, and the `SYMBOL[FREQ]:` prefix
//! that limits a setting to one series.

use std::str::FromStr;

use vstd::prelude::*;

use crate::frequency::Frequency;
use crate::frequency;
use crate::number::{Rate, Real};
use crate::text;

verus! {

// ---------------------------------------------------------------------------
// Asset classes
// ---------------------------------------------------------------------------

/// A trading calendar.
#[derive(Clone, Copy, Debug, PartialEq, Eq, Structural)]
pub enum AssetClass {
    /// 252 trading days a year of 6.5 hours each.
    Stocks,
    /// 260 weekdays a year of 24 hours each.
    Forex,
    /// 365 days a year of 24 hours each.
    Crypto,
}

impl AssetClass {
    /// Trading days a year.
    pub open spec fn days(self) -> nat {
        match self {
            AssetClass::Stocks => 252,
            AssetClass::Forex => 260,
            AssetClass::Crypto => 365,
        }
    }

    /// Trading seconds a day.
    pub open spec fn day_seconds(self) -> nat {
        match self {
            AssetClass::Stocks => 23_400,
            AssetClass::Forex => 86_400,
            AssetClass::Crypto => 86_400,
        }
    }

    /// Trading seconds a year.
    pub open spec fn year_seconds(self) -> nat {
        self.days() * self.day_seconds()
    }

    /// The trading seconds that a bar of `freq` spans, as a ratio: minutes and
    /// hours are trading time already, a day is the trading day, a week is the
    /// 52nd part of the trading year and a month its 12th.
    pub open spec fn bar_seconds(self, freq: Frequency) -> (nat, nat) {
        match freq {
            Frequency::Minute(n) => (n as nat * 60, 1),
            Frequency::Hour(n) => (n as nat * 3_600, 1),
            Frequency::Day(n) => (n as nat * self.day_seconds(), 1),
            Frequency::Week(n) => (n as nat * self.year_seconds(), 52),
            Frequency::Month(n) => (n as nat * self.year_seconds(), 12),
        }
    }

    /// The bars of `freq` in a year, as a ratio: bars below a day by the trading
    /// hours, days by the trading days, 52 weeks and 12 months in any calendar.
    pub open spec fn yearly_bars(self, freq: Frequency) -> (nat, nat) {
        match freq {
            Frequency::Minute(n) => (self.year_seconds() / 60, n as nat),
            Frequency::Hour(n) => (self.year_seconds() / 3_600, n as nat),
            Frequency::Day(n) => (self.days(), n as nat),
            Frequency::Week(n) => (52, n as nat),
            Frequency::Month(n) => (12, n as nat),
        }
    }

    /// Trading days the market is open per calendar year.
    pub fn trading_days_per_year(self) -> (out: u64)
        ensures
            out == self.days(),
    {
        match self {
            AssetClass::Stocks => 252,
            AssetClass::Forex => 260,
            AssetClass::Crypto => 365,
        }
    }

    fn trading_seconds_per_day(self) -> (out: u64)
        ensures
            out == self.day_seconds(),
    {
        match self {
            AssetClass::Stocks => 23_400,
            AssetClass::Forex => 86_400,
            AssetClass::Crypto => 86_400,
        }
    }

    /// Trading hours per trading day.
    pub fn trading_hours_per_day(self) -> (out: Rate)
        ensures
            out.denominator > 0,
            out.numerator * 3_600 == self.day_seconds() * out.denominator,
            out.denominator <= 2,
    {
        match self {
            AssetClass::Stocks => Rate { numerator: 13, denominator: 2 },
            AssetClass::Forex => Rate { numerator: 24, denominator: 1 },
            AssetClass::Crypto => Rate { numerator: 24, denominator: 1 },
        }
    }

    /// Trading hours the market is open per calendar year.
    pub fn trading_hours_per_year(self) -> (out: u64)
        ensures
            out * 3_600 == self.year_seconds(),
    {
        match self {
            AssetClass::Stocks => 1_638,
            AssetClass::Forex => 6_240,
            AssetClass::Crypto => 8_760,
        }
    }

    /// Trading seconds a bar of `freq` spans on this calendar.
    pub fn trading_seconds_per_bar(self, freq: Frequency) -> (out: Rate)
        ensures
            (out.numerator as nat, out.denominator as nat) == self.bar_seconds(freq),
    {
        let day: u64 = self.trading_seconds_per_day();
        let year: u64 = self.trading_hours_per_year() * 3_600;
        let (n, unit, denominator): (u32, u64, u64) = match freq {
            Frequency::Minute(n) => (n, 60, 1),
            Frequency::Hour(n) => (n, 3_600, 1),
            Frequency::Day(n) => (n, day, 1),
            Frequency::Week(n) => (n, year, 52),
            Frequency::Month(n) => (n, year, 12),
        };
        assert(0 <= n as int * unit as int <= 0xffff_ffff * 31_536_000) by (nonlinear_arith)
            requires
                0 <= n <= 0xffff_ffff,
                0 <= unit <= 31_536_000,
        ;
        Rate { numerator: (n as u64) * unit, denominator }
    }

    /// The bars per year on this calendar with bars of `freq` each.
    pub fn bars_per_year(self, freq: Frequency) -> (out: Rate)
        ensures
            (out.numerator as nat, out.denominator as nat) == self.yearly_bars(freq),
    {
        match freq {
            Frequency::Minute(n) => Rate {
                numerator: self.trading_hours_per_year() * 60,
                denominator: n as u64,
            },
            Frequency::Hour(n) => Rate {
                numerator: self.trading_hours_per_year(),
                denominator: n as u64,
            },
            Frequency::Day(n) => Rate {
                numerator: self.trading_days_per_year(),
                denominator: n as u64,
            },
            Frequency::Week(n) => Rate { numerator: 52, denominator: n as u64 },
            Frequency::Month(n) => Rate { numerator: 12, denominator: n as u64 },
        }
    }
}

/// An annualization figure: one that was given, or one that a calendar yields.
#[derive(Clone, Copy, Debug, PartialEq, Eq, Structural)]
pub enum BarsPerYear {
    Given(Real),
    Derived(Rate),
}

/// The bars per year of a run: the explicit figure where there is one, else
/// that of the calendar (stocks where none was named) and the cadence (daily
/// where none is known).
pub fn resolve(
    explicit: Option<Real>,
    class: Option<AssetClass>,
    freq: Option<Frequency>,
) -> (out: BarsPerYear)
    ensures
        explicit is Some ==> out == BarsPerYear::Given(explicit->0),
        explicit is None ==> (out matches BarsPerYear::Derived(rate) && (
            rate.numerator as nat,
            rate.denominator as nat,
        ) == (match class {
            Some(c) => c,
            None => AssetClass::Stocks,
        }).yearly_bars(
            match freq {
                Some(f) => f,
                None => Frequency::Day(1),
            },
        )),
{
    if let Some(v) = explicit {
        return BarsPerYear::Given(v);
    }
    let class: AssetClass = match class {
        Some(c) => c,
        None => AssetClass::Stocks,
    };
    let freq: Frequency = match freq {
        Some(f) => f,
        None => Frequency::Day(1),
    };
    BarsPerYear::Derived(class.bars_per_year(freq))
}

// ---------------------------------------------------------------------------
// Windows
// ---------------------------------------------------------------------------

/// The length of a window: a count of bars, or a duration that a calendar
/// turns into one.
#[derive(Clone, Copy, Debug, PartialEq, Eq, Structural)]
pub enum WindowSpec {
    /// A bar count; never zero.
    Bars(usize),
    /// A duration.
    Duration(Frequency),
}

/// `num / den` rounded to the nearest integer, a half upwards.
pub open spec fn nearest(num: nat, den: nat) -> nat {
    (2 * num + den) / (2 * den)
}

/// Whether `c` is an ASCII letter.
pub open spec fn is_letter(c: char) -> bool {
    'a' <= c <= 'z' || 'A' <= c <= 'Z'
}

/// The window that a text spells: a cadence where it ends in a letter, else a
/// positive bar count.
pub open spec fn parsed_window(s: Seq<char>) -> Option<WindowSpec> {
    let t = text::trimmed(s);
    if t.len() == 0 {
        None
    } else if is_letter(t.last()) {
        match frequency::parsed_frequency(t) {
            Some(f) => Some(WindowSpec::Duration(f)),
            None => None,
        }
    } else {
        match text::parsed_unsigned(t, usize::MAX as nat) {
            Some(n) => if n > 0 {
                Some(WindowSpec::Bars(n as usize))
            } else {
                None
            },
            None => None,
        }
    }
}

/// What is said of a text that spells no window.
pub open spec fn window_complaint(s: Seq<char>) -> Seq<char> {
    let t = text::trimmed(s);
    if t.len() == 0 {
        "empty `--windowed` value"@
    } else if is_letter(t.last()) {
        "`"@ + t + "`: "@ + frequency::frequency_complaint(t) + " (or pass a plain bar count)"@
    } else {
        "`"@ + t + "`: expected a positive bar count or a duration like `1d`/`1w`/`1M`"@
    }
}

impl WindowSpec {
    /// Whether a bar count is positive.
    pub open spec fn wf(self) -> bool {
        self matches WindowSpec::Bars(n) ==> n > 0
    }

    /// The text of the window, as it is parsed.
    pub open spec fn shown(self) -> Seq<char> {
        match self {
            WindowSpec::Bars(n) => text::decimal(n as nat),
            WindowSpec::Duration(f) => f.code(),
        }
    }

    /// The text of the window.
    pub fn show(self) -> (out: String)
        ensures
            out@ == self.shown(),
    {
        match self {
            WindowSpec::Bars(n) => text::decimal_string(n as u64),
            WindowSpec::Duration(f) => f.format(),
        }
    }

    /// The window that `s` spells.
    pub fn parse(s: &str) -> (out: Result<WindowSpec, String>)
        ensures
            match out {
                Ok(w) => parsed_window(s@) == Some(w) && w.wf(),
                Err(e) => parsed_window(s@) is None && e@ == window_complaint(s@),
            },
    {
        let s = text::trim(s);
        let chars: Vec<char> = text::chars_of(s);
        if chars.len() == 0 {
            return Err("empty `--windowed` value".to_owned());
        }
        let last: char = chars[chars.len() - 1];
        let mut message: String = "`".to_owned();
        message.append(s);
        if ('a' <= last && last <= 'z') || ('A' <= last && last <= 'Z') {
            match Frequency::parse(s) {
                Ok(f) => Ok(WindowSpec::Duration(f)),
                Err(e) => {
                    message.append("`: ");
                    message.append(&e);
                    message.append(" (or pass a plain bar count)");
                    Err(message)
                },
            }
        } else {
            if let Some(n) = text::parse_unsigned(s, usize::MAX as u64) {
                if n > 0 {
                    return Ok(WindowSpec::Bars(n as usize));
                }
            }
            message.append("`: expected a positive bar count or a duration like `1d`/`1w`/`1M`");
            Err(message)
        }
    }

    /// The bar count of a window of `win` with bars of `bar` on a calendar: the
    /// ratio of their trading seconds, to the nearest integer, at most
    /// `usize::MAX`.
    pub open spec fn bars_of(win: Frequency, bar: Frequency, class: AssetClass) -> nat {
        let (wn, wd) = class.bar_seconds(win);
        let (bn, bd) = class.bar_seconds(bar);
        let n = nearest(wn * bd, wd * bn);
        if n > usize::MAX {
            usize::MAX as nat
        } else {
            n
        }
    }

    /// Whether a window of `win` has fewer trading seconds than one bar of `bar`.
    pub open spec fn is_short(win: Frequency, bar: Frequency, class: AssetClass) -> bool {
        let (wn, wd) = class.bar_seconds(win);
        let (bn, bd) = class.bar_seconds(bar);
        wn * bd < wd * bn
    }

    /// The bar count of the window. A bar count needs neither a cadence nor a
    /// calendar; a duration needs both, and must not be shorter than one bar.
    pub fn resolve(&self, bar_freq: Option<Frequency>, class: Option<AssetClass>) -> (out: Result<
        usize,
        String,
    >)
        requires
            self.wf(),
            bar_freq matches Some(f) ==> f.count() > 0,
        ensures
            match *self {
                WindowSpec::Bars(n) => out == Ok::<usize, String>(n),
                WindowSpec::Duration(win) => match (class, bar_freq) {
                    (None, _) => out matches Err(e) && e@ == "`-w "@ + win.code()
                        + "`: duration form requires an explicit trading calendar — pass `--stocks`, `--forex`, or `--crypto`"@,
                    (Some(_), None) => out matches Err(e) && e@ == "`-w "@ + win.code()
                        + "`: no bar cadence known — pass `-f/--frequency` or provide input with a parseable `time` column"@,
                    (Some(c), Some(bar)) => if Self::is_short(win, bar, c) {
                        out matches Err(e) && e@ == "`-w "@ + win.code()
                            + "`: window shorter than one bar of the input's cadence"@
                    } else {
                        out matches Ok(n) && n == Self::bars_of(win, bar, c)
                    },
                },
            },
            out matches Ok(n) ==> n > 0,
    {
        match *self {
            WindowSpec::Bars(n) => Ok(n),
            WindowSpec::Duration(win) => {
                let mut message: String = "`-w ".to_owned();
                message.append(&win.format());
                let class: AssetClass = match class {
                    Some(c) => c,
                    None => {
                        message.append(
                            "`: duration form requires an explicit trading calendar — pass `--stocks`, `--forex`, or `--crypto`",
                        );
                        return Err(message);
                    },
                };
                let bar_freq: Frequency = match bar_freq {
                    Some(f) => f,
                    None => {
                        message.append(
                            "`: no bar cadence known — pass `-f/--frequency` or provide input with a parseable `time` column",
                        );
                        return Err(message);
                    },
                };
                let w: Rate = class.trading_seconds_per_bar(win);
                let b: Rate = class.trading_seconds_per_bar(bar_freq);
                let num: u128 = ratio_term(w.numerator, b.denominator);
                let den: u128 = ratio_term(b.numerator, w.denominator);
                proof {
                    let unit = class.bar_seconds(bar_freq).0;
                    assert(unit > 0) by (nonlinear_arith)
                        requires
                            bar_freq.count() > 0,
                            unit == bar_freq.count() as nat * 60 || unit == bar_freq.count() as nat
                                * 3_600 || unit == bar_freq.count() as nat * class.day_seconds()
                                || unit == bar_freq.count() as nat * class.year_seconds(),
                            class.day_seconds() > 0,
                            class.year_seconds() > 0,
                    ;
                    assert(den > 0) by (nonlinear_arith)
                        requires
                            den == b.numerator as nat * w.denominator as nat,
                            b.numerator > 0,
                            w.denominator > 0,
                    ;
                    assert(b.numerator as nat * w.denominator as nat == w.denominator as nat
                        * b.numerator as nat) by (nonlinear_arith);
                }
                if num < den {
                    message.append("`: window shorter than one bar of the input's cadence");
                    return Err(message);
                }
                let n: u128 = (2 * num + den) / (2 * den);
                assert(n > 0) by (nonlinear_arith)
                    requires
                        num >= den,
                        den > 0,
                        n == (2 * num + den) as int / (2 * den) as int,
                ;
                if n > usize::MAX as u128 {
                    return Ok(usize::MAX);
                }
                Ok(n as usize)
            },
        }
    }
}

fn ratio_term(a: u64, b: u64) -> (out: u128)
    requires
        b <= 52,
    ensures
        out == a as nat * b as nat,
        out <= 52 * 0xffff_ffff_ffff_ffff,
{
    assert(0 <= a as int * b as int <= 0xffff_ffff_ffff_ffff * 52) by (nonlinear_arith)
        requires
            0 <= a <= 0xffff_ffff_ffff_ffff,
            0 <= b <= 52,
    ;
    (a as u128) * (b as u128)
}

impl FromStr for WindowSpec {
    type Err = String;

    fn from_str(s: &str) -> Result<WindowSpec, String> {
        WindowSpec::parse(s)
    }
}

/// Reading the text of a window back gives that window.
pub proof fn window_reads_back(w: WindowSpec)
    requires
        w.wf(),
        w matches WindowSpec::Duration(f) ==> f.count() > 0,
    ensures
        parsed_window(w.shown()) == Some(w),
{
    match w {
        WindowSpec::Bars(n) => {
            let s = text::decimal(n as nat);
            text::decimal_reads_back(n as nat);
            assert(text::is_digit(s[0]));
            assert(text::is_digit(s.last()));
            assert(text::trim_front(s) == s);
            assert(text::trimmed(s) == s);
            text::parsed_unsigned_of_decimal(n as nat, usize::MAX as nat);
        },
        WindowSpec::Duration(f) => {
            frequency::code_reads_back(f);
            frequency::trimmed_of_code(f);
            assert(f.code().last() == f.letter());
        },
    }
}

// ---------------------------------------------------------------------------
// Times
// ---------------------------------------------------------------------------

/// A bound on the seconds from the epoch of the instants that the years from
/// -9999 to 9999 hold.
pub const SECONDS_LIMIT: i64 = 400_000_000_000;

/// The instant that a text names in RFC 3339, if it does: its Unix seconds, and
/// the whole milliseconds beyond them.
pub uninterp spec fn rfc3339_instant(text: Seq<char>) -> Option<(i64, u16)>;

/// The Unix seconds of the instant, in UTC, that a text names under a format
/// description of date and time, if it does.
pub uninterp spec fn datetime_seconds(text: Seq<char>, format: Seq<char>) -> Option<i64>;

/// The Unix seconds of the midnight, in UTC, of the day that a text names under
/// a format description of dates, if it does.
pub uninterp spec fn date_seconds(text: Seq<char>, format: Seq<char>) -> Option<i64>;

/// `time::OffsetDateTime::parse` with the format `Rfc3339`, then
/// `unix_timestamp` and `millisecond`. Without the crate's `large-dates` feature
/// a date lies in the years from -9999 to 9999 and an offset is below 26 hours,
/// which bounds the seconds; `millisecond` lies below 1000. Which instant a text
/// names is not stated; it depends on the text alone.
#[verifier::external_body]
pub(crate) fn read_rfc3339(s: &str) -> (out: Option<(i64, u16)>)
    ensures
        out == rfc3339_instant(s@),
        out matches Some((v, m)) ==> -SECONDS_LIMIT <= v <= SECONDS_LIMIT && m < 1000,
{
    match time::OffsetDateTime::parse(s, &time::format_description::well_known::Rfc3339) {
        Ok(t) => Some((t.unix_timestamp(), t.millisecond())),
        Err(_) => None,
    }
}

/// `time::PrimitiveDateTime::parse` under a format description in version 1 of
/// the syntax, then the Unix seconds of that time in UTC; `None` where the
/// description is no valid one, too. The seconds are bounded as in
/// `read_rfc3339`. Which instant a text names is not stated; it depends on the
/// text and the description alone.
#[verifier::external_body]
fn read_datetime(s: &str, format: &str) -> (out: Option<i64>)
    requires
        format@.len() <= 1000,
    ensures
        out == datetime_seconds(s@, format@),
        out matches Some(v) ==> -SECONDS_LIMIT <= v <= SECONDS_LIMIT,
{
    let items = time::format_description::parse_borrowed::<1>(format).ok()?;
    let t = time::PrimitiveDateTime::parse(s, &items).ok()?;
    Some(t.assume_utc().unix_timestamp())
}

/// `time::Date::parse` under a format description in version 1 of the syntax,
/// then the Unix seconds of that day's midnight in UTC; `None` where the
/// description is no valid one, too. The seconds are bounded as in
/// `read_rfc3339`. Which day a text names is not stated; it depends on the text
/// and the description alone.
#[verifier::external_body]
fn read_date(s: &str, format: &str) -> (out: Option<i64>)
    requires
        format@.len() <= 1000,
    ensures
        out == date_seconds(s@, format@),
        out matches Some(v) ==> -SECONDS_LIMIT <= v <= SECONDS_LIMIT,
{
    let items = time::format_description::parse_borrowed::<1>(format).ok()?;
    let day = time::Date::parse(s, &items).ok()?;
    Some(day.midnight().assume_utc().unix_timestamp())
}

/// A reading in seconds that lies within the bounds of dates.
pub open spec fn in_bounds(seconds: Option<i64>) -> bool {
    seconds matches Some(v) ==> -SECONDS_LIMIT <= v <= SECONDS_LIMIT
}

/// The milliseconds of a number that stands for a time: what lies further from
/// zero than 10^11 is in milliseconds, anything else in seconds.
pub open spec fn epoch_millis(n: int) -> int {
    if n > 100_000_000_000 || n < -100_000_000_000 {
        n
    } else {
        n * 1000
    }
}

/// The Unix milliseconds of a time text, given what it names in RFC 3339, as a
/// date and time, and as a date. A number is an epoch stamp; else the first of
/// the three readings counts.
pub open spec fn millis_of(
    raw: Seq<char>,
    rfc3339: Option<i64>,
    datetime: Option<i64>,
    date: Option<i64>,
) -> Option<int> {
    let s = text::trimmed(raw);
    if s.len() == 0 {
        None
    } else {
        match text::parsed_signed(s) {
            Some(n) => Some(epoch_millis(n)),
            None => match (rfc3339, datetime, date) {
                (Some(v), _, _) => Some(v * 1000),
                (None, Some(v), _) => Some(v * 1000),
                (None, None, Some(v)) => Some(v * 1000),
                (None, None, None) => None,
            },
        }
    }
}

/// The Unix milliseconds of a time text, given its three readings as a date.
pub fn millis_from_readings(
    raw: &str,
    rfc3339: Option<i64>,
    datetime: Option<i64>,
    date: Option<i64>,
) -> (out: Option<i64>)
    requires
        in_bounds(rfc3339),
        in_bounds(datetime),
        in_bounds(date),
    ensures
        match out {
            Some(v) => millis_of(raw@, rfc3339, datetime, date) == Some(v as int),
            None => millis_of(raw@, rfc3339, datetime, date) is None,
        },
{
    let s = text::trim(raw);
    if s.is_empty() {
        return None;
    }
    if let Some(n) = text::parse_signed(s) {
        return Some(
            if n > 100_000_000_000 || n < -100_000_000_000 {
                n
            } else {
                n * 1000
            },
        );
    }
    if let Some(v) = rfc3339 {
        return Some(v * 1000);
    }
    if let Some(v) = datetime {
        return Some(v * 1000);
    }
    if let Some(v) = date {
        return Some(v * 1000);
    }
    None
}

/// The Unix milliseconds that a time text stands for: an epoch stamp, an RFC
/// 3339 instant, a date and time, or a date.
pub open spec fn parsed_millis(raw: Seq<char>) -> Option<int> {
    let s = text::trimmed(raw);
    millis_of(
        raw,
        match rfc3339_instant(s) {
            Some((v, _)) => Some(v),
            None => None,
        },
        datetime_seconds(s, "[year]-[month]-[day] [hour]:[minute]:[second]"@),
        date_seconds(s, "[year]-[month]-[day]"@),
    )
}

/// The Unix milliseconds of one value of a time column, or `None` where it has
/// none of the supported shapes.
pub fn parse_time_to_millis(raw: &str) -> (out: Option<i64>)
    ensures
        match out {
            Some(v) => parsed_millis(raw@) == Some(v as int),
            None => parsed_millis(raw@) is None,
        },
{
    let s = text::trim(raw);
    let date_time = "[year]-[month]-[day] [hour]:[minute]:[second]";
    let date = "[year]-[month]-[day]";
    proof {
        reveal_strlit("[year]-[month]-[day] [hour]:[minute]:[second]");
        reveal_strlit("[year]-[month]-[day]");
    }
    let rfc3339: Option<i64> = match read_rfc3339(s) {
        Some((v, _)) => Some(v),
        None => None,
    };
    millis_from_readings(raw, rfc3339, read_datetime(s, date_time), read_date(s, date))
}

// ---------------------------------------------------------------------------
// Detecting a cadence
// ---------------------------------------------------------------------------

/// The positive gaps between consecutive stamps, in order.
pub open spec fn positive_gaps(stamps: Seq<i64>) -> Seq<i128>
    decreases stamps.len(),
{
    if stamps.len() < 2 {
        seq![]
    } else {
        let gap = stamps.last() - stamps[stamps.len() - 2];
        if gap > 0 {
            positive_gaps(stamps.drop_last()).push(gap as i128)
        } else {
            positive_gaps(stamps.drop_last())
        }
    }
}

/// `s` with `x` put behind the last element that is not above it.
pub open spec fn with_inserted(s: Seq<i128>, x: i128) -> Seq<i128>
    decreases s.len(),
{
    if s.len() == 0 || s.last() <= x {
        s.push(x)
    } else {
        with_inserted(s.drop_last(), x).push(s.last())
    }
}

/// The elements of `s` in ascending order.
pub open spec fn in_order(s: Seq<i128>) -> Seq<i128>
    decreases s.len(),
{
    if s.len() == 0 {
        s
    } else {
        with_inserted(in_order(s.drop_last()), s.last())
    }
}

proof fn with_inserted_keeps_order(s: Seq<i128>, x: i128)
    requires
        forall|i: int, j: int| 0 <= i <= j < s.len() ==> s[i] <= s[j],
    ensures
        ({
            let r = with_inserted(s, x);
            &&& r.len() == s.len() + 1
            &&& r.to_multiset() == s.to_multiset().insert(x)
            &&& forall|i: int, j: int| 0 <= i <= j < r.len() ==> r[i] <= r[j]
        }),
    decreases s.len(),
{
    broadcast use vstd::seq_lib::group_to_multiset_ensures;

    let r = with_inserted(s, x);
    if s.len() == 0 || s.last() <= x {
    } else {
        let t = s.drop_last();
        with_inserted_keeps_order(t, x);
        assert(t.push(s.last()) =~= s);
        assert(r.to_multiset() =~= s.to_multiset().insert(x));
        assert forall|i: int| 0 <= i < r.len() - 1 implies r[i] <= s.last() by {
            assert(with_inserted(t, x).contains(r[i]));
            assert(with_inserted(t, x).to_multiset().contains(r[i]));
            if r[i] != x {
                assert(t.to_multiset().contains(r[i]));
                assert(t.contains(r[i]));
            }
        }
    }
}

/// `in_order` gives the same elements, none of them before a smaller one.
pub proof fn in_order_is_ascending(s: Seq<i128>)
    ensures
        in_order(s).len() == s.len(),
        in_order(s).to_multiset() == s.to_multiset(),
        forall|i: int, j: int|
            0 <= i <= j < s.len() ==> #[trigger] in_order(s)[i] <= #[trigger] in_order(s)[j],
    decreases s.len(),
{
    broadcast use vstd::seq_lib::group_to_multiset_ensures;

    if s.len() > 0 {
        in_order_is_ascending(s.drop_last());
        with_inserted_keeps_order(in_order(s.drop_last()), s.last());
        assert(s.drop_last().push(s.last()) =~= s);
    }
}

/// The named cadence whose bars are closest to `secs` seconds, by the rounded
/// geometric means between neighbours. Halfway between two, which happens between
/// one hour and four, the shorter one is meant.
pub open spec fn snapped(secs: int) -> Frequency {
    if secs < 134 {
        Frequency::Minute(1)
    } else if secs < 520 {
        Frequency::Minute(5)
    } else if secs < 1_273 {
        Frequency::Minute(15)
    } else if secs < 2_545 {
        Frequency::Minute(30)
    } else if secs <= 7_200 {
        Frequency::Hour(1)
    } else if secs < 35_300 {
        Frequency::Hour(4)
    } else if secs < 228_700 {
        Frequency::Day(1)
    } else if secs < 1_252_000 {
        Frequency::Week(1)
    } else {
        Frequency::Month(1)
    }
}

fn snap_seconds_to_frequency(secs: i128) -> (out: Frequency)
    ensures
        out == snapped(secs as int),
{
    if secs < 134 {
        Frequency::Minute(1)
    } else if secs < 520 {
        Frequency::Minute(5)
    } else if secs < 1_273 {
        Frequency::Minute(15)
    } else if secs < 2_545 {
        Frequency::Minute(30)
    } else if secs <= 7_200 {
        Frequency::Hour(1)
    } else if secs < 35_300 {
        Frequency::Hour(4)
    } else if secs < 228_700 {
        Frequency::Day(1)
    } else if secs < 1_252_000 {
        Frequency::Week(1)
    } else {
        Frequency::Month(1)
    }
}

/// The cadence of a series of stamps in milliseconds: the one next to the median
/// positive gap, where there is such a gap.
pub open spec fn detected(stamps: Seq<i64>) -> Option<Frequency> {
    let gaps = in_order(positive_gaps(stamps));
    if gaps.len() == 0 {
        None
    } else {
        Some(snapped(gaps[gaps.len() as int / 2] as int / 1000))
    }
}

fn insert_in_order(v: &mut Vec<i128>, x: i128)
    ensures
        final(v)@ == with_inserted(old(v)@, x),
{
    let mut k: usize = v.len();
    let ghost s = v@;
    assert(s.take(k as int) =~= s);
    assert(s.skip(k as int) =~= Seq::<i128>::empty());
    assert(with_inserted(s.take(k as int), x) + s.skip(k as int) =~= with_inserted(s, x));
    while k > 0 && v[k - 1] > x
        invariant
            v@ == s,
            k <= s.len(),
            with_inserted(s.take(k as int), x) + s.skip(k as int) == with_inserted(s, x),
        decreases k,
    {
        proof {
            let t = s.take(k as int);
            assert(t.drop_last() =~= s.take(k - 1));
            assert(with_inserted(t, x) == with_inserted(s.take(k - 1), x).push(s[k - 1]));
            assert(with_inserted(s.take(k - 1), x) + s.skip(k - 1) =~= with_inserted(t, x)
                + s.skip(k as int));
        }
        k = k - 1;
    }
    proof {
        let t = s.take(k as int);
        assert(with_inserted(t, x) == t.push(x));
    }
    v.insert(k, x);
    assert(v@ =~= s.take(k as int).push(x) + s.skip(k as int));
}

/// The cadence of a series of stamps in milliseconds, by its median positive
/// gap.
pub fn detect_frequency_from_millis(stamps: &[i64]) -> (out: Option<Frequency>)
    ensures
        out == detected(stamps@),
{
    let mut gaps: Vec<i128> = Vec::new();
    let n: usize = stamps.len();
    if n == 0 {
        return None;
    }
    let mut i: usize = 1;
    proof {
        assert(positive_gaps(stamps@.take(1)) =~= Seq::<i128>::empty());
    }
    while i < n
        invariant
            n == stamps@.len(),
            1 <= i <= n,
            gaps@ == in_order(positive_gaps(stamps@.take(i as int))),
        decreases n - i,
    {
        let gap: i128 = stamps[i] as i128 - stamps[i - 1] as i128;
        proof {
            let next = stamps@.take(i + 1);
            assert(next.drop_last() =~= stamps@.take(i as int));
            let g = positive_gaps(stamps@.take(i as int));
            assert(g.push(gap).drop_last() =~= g);
        }
        if gap > 0 {
            insert_in_order(&mut gaps, gap);
        }
        i = i + 1;
    }
    assert(stamps@.take(n as int) =~= stamps@);
    if gaps.len() == 0 {
        return None;
    }
    let median: i128 = gaps[gaps.len() / 2];
    proof {
        gaps_are_positive(stamps@);
        let g = positive_gaps(stamps@);
        in_order_is_ascending(g);
        vstd::seq_lib::to_multiset_contains(in_order(g), median);
        vstd::seq_lib::to_multiset_contains(g, median);
        assert(in_order(g)[gaps@.len() as int / 2] == median);
        assert(in_order(g).contains(median));
    }
    Some(snap_seconds_to_frequency(median / 1000))
}

proof fn gaps_are_positive(stamps: Seq<i64>)
    ensures
        forall|i: int| 0 <= i < positive_gaps(stamps).len() ==> #[trigger] positive_gaps(stamps)[i] > 0,
    decreases stamps.len(),
{
    if stamps.len() >= 2 {
        gaps_are_positive(stamps.drop_last());
        let rest = positive_gaps(stamps.drop_last());
        let gap = stamps.last() - stamps[stamps.len() - 2];
        assert(gap == (gap as i128) as int);
        assert forall|i: int| 0 <= i < positive_gaps(stamps).len() implies #[trigger] positive_gaps(
            stamps,
        )[i] > 0 by {
            if i < rest.len() {
                assert(positive_gaps(stamps)[i] == rest[i]);
            }
        }
    }
}

// ---------------------------------------------------------------------------
// Scopes
// ---------------------------------------------------------------------------

/// What a setting is limited to: a symbol, a cadence, both, or nothing.
#[derive(Debug, Clone, PartialEq, Eq)]
pub struct Scope {
    pub symbol: Option<String>,
    pub freq: Option<Frequency>,
}

/// A scope as values: the symbol's text and the cadence.
pub struct ScopeModel {
    pub symbol: Option<Seq<char>>,
    pub freq: Option<Frequency>,
}

/// The text of an optional string.
pub open spec fn text_of(s: Option<String>) -> Option<Seq<char>> {
    match s {
        Some(s) => Some(s@),
        None => None,
    }
}

impl View for Scope {
    type V = ScopeModel;

    open spec fn view(&self) -> ScopeModel {
        ScopeModel { symbol: text_of(self.symbol), freq: self.freq }
    }
}

impl ScopeModel {
    /// Whether the scope covers a run on `symbol` at `freq`. An absent half
    /// covers anything; a cadence covers no run without one.
    pub open spec fn covers(self, symbol: Seq<char>, freq: Option<Frequency>) -> bool {
        &&& self.symbol matches Some(s) ==> s == symbol
        &&& self.freq matches Some(f) ==> freq == Some(f)
    }

    /// How narrow the scope is: both halves, then the symbol alone, then the
    /// cadence alone, then nothing.
    pub open spec fn rank(self) -> int {
        (if self.symbol is Some {
            2int
        } else {
            0
        }) + (if self.freq is Some {
            1int
        } else {
            0
        })
    }
}

impl Scope {
    /// The scope that covers everything.
    pub fn unscoped() -> (out: Scope)
        ensures
            out@ == (ScopeModel { symbol: None, freq: None }),
    {
        Scope { symbol: None, freq: None }
    }

    /// Whether both halves match the run's symbol and cadence.
    pub fn matches(&self, symbol: &str, freq: Option<Frequency>) -> (out: bool)
        ensures
            out == self@.covers(symbol@, freq),
    {
        let symbol_matches: bool = match &self.symbol {
            Some(s) => text::same(s, symbol),
            None => true,
        };
        let freq_matches: bool = match (self.freq, freq) {
            (Some(f), Some(g)) => f == g,
            (Some(_), None) => false,
            (None, _) => true,
        };
        symbol_matches && freq_matches
    }

    /// Whether neither half is set.
    pub fn is_default(&self) -> (out: bool)
        ensures
            out == (self@.symbol is None && self@.freq is None),
    {
        self.symbol.is_none() && self.freq.is_none()
    }

    /// How narrow the scope is; the higher number wins.
    pub fn specificity(&self) -> (out: u8)
        ensures
            out == self@.rank(),
    {
        match (self.symbol.is_some(), self.freq.is_some()) {
            (true, true) => 3,
            (true, false) => 2,
            (false, true) => 1,
            (false, false) => 0,
        }
    }
}

impl Default for Scope {
    fn default() -> (out: Scope)
        ensures
            out@ == (ScopeModel { symbol: None, freq: None }),
    {
        Scope::unscoped()
    }
}

/// How many brackets `s` opens more than it closes.
pub open spec fn bracket_depth(s: Seq<char>) -> int
    decreases s.len(),
{
    if s.len() == 0 {
        0
    } else {
        let c = s.last();
        bracket_depth(s.drop_last()) + (if c == '[' || c == '{' {
            1int
        } else if c == ']' || c == '}' {
            -1
        } else {
            0
        })
    }
}

/// Whether a `:` outside brackets stands at `i`.
pub open spec fn is_scope_colon(s: Seq<char>, i: int) -> bool {
    0 <= i < s.len() && s[i] == ':' && bracket_depth(s.take(i)) == 0
}

/// The place of the first `:` outside brackets from `from` on.
pub open spec fn scope_colon(s: Seq<char>, from: int) -> Option<int>
    decreases s.len() - from,
{
    if from >= s.len() {
        None
    } else if is_scope_colon(s, from) {
        Some(from)
    } else {
        scope_colon(s, from + 1)
    }
}

/// The nesting of a text is bounded by its length.
pub proof fn bracket_depth_bounds(s: Seq<char>)
    ensures
        -s.len() <= bracket_depth(s) <= s.len(),
    decreases s.len(),
{
    if s.len() > 0 {
        bracket_depth_bounds(s.drop_last());
    }
}

/// The first `:` of `chars` outside brackets.
pub fn find_scope_colon(chars: &[char]) -> (out: Option<usize>)
    ensures
        match out {
            Some(i) => scope_colon(chars@, 0) == Some(i as int),
            None => scope_colon(chars@, 0) is None,
        },
{
    let n: usize = chars.len();
    let mut depth: i128 = 0;
    let mut i: usize = 0;
    assert(chars@.take(0) =~= Seq::<char>::empty());
    while i < n
        invariant
            n == chars@.len(),
            i <= n,
            depth == bracket_depth(chars@.take(i as int)),
            scope_colon(chars@, 0) == scope_colon(chars@, i as int),
        decreases n - i,
    {
        let c: char = chars[i];
        if c == ':' && depth == 0 {
            assert(is_scope_colon(chars@, i as int));
            return Some(i);
        }
        proof {
            assert(chars@.take(i + 1).drop_last() =~= chars@.take(i as int));
            bracket_depth_bounds(chars@.take(i as int));
            bracket_depth_bounds(chars@.take(i + 1));
        }
        if c == '[' || c == '{' {
            depth = depth + 1;
        } else if c == ']' || c == '}' {
            depth = depth - 1;
        }
        i = i + 1;
    }
    None
}

/// The symbol and the bracketed part of a `SYMBOL[FREQ]` token, or what is wrong
/// with it.
pub open spec fn scope_parts(token: Seq<char>) -> Result<
    (Option<Seq<char>>, Option<Seq<char>>),
    Seq<char>,
> {
    let t = text::trimmed(token);
    let open = text::position(t, '[');
    if t.len() == 0 {
        Ok((None, None))
    } else if open == t.len() {
        Ok((Some(t), None))
    } else if t.last() != ']' {
        Err("scope `"@ + t + "`: `[freq]` bracket must close at the end"@)
    } else {
        let symbol = text::trimmed(t.take(open));
        let freq = text::trimmed(t.subrange(open + 1, t.len() - 1));
        if freq.len() == 0 {
            Err("scope `"@ + t + "`: empty `[freq]` bracket"@)
        } else if symbol.len() == 0 {
            Ok((None, Some(freq)))
        } else {
            Ok((Some(symbol), Some(freq)))
        }
    }
}

/// The symbol and the bracketed part of a `SYMBOL[FREQ]` token. An unclosed or
/// empty bracket is an error; an empty token has neither part.
pub fn parse_scope_parts(token: &str) -> (out: Result<(Option<String>, Option<String>), String>)
    ensures
        match (out, scope_parts(token@)) {
            (Ok((a, b)), Ok((x, y))) => text_of(a) == x && text_of(b) == y,
            (Err(e), Err(m)) => e@ == m,
            _ => false,
        },
{
    let t = text::trim(token);
    let chars: Vec<char> = text::chars_of(t);
    let n: usize = chars.len();
    if n == 0 {
        return Ok((None, None));
    }
    let open: usize = text::find(&chars, '[');
    proof {
        text::position_is_first(t@, '[');
    }
    if open == n {
        return Ok((Some(t.to_owned()), None));
    }
    if chars[n - 1] != ']' {
        let mut message: String = "scope `".to_owned();
        message.append(t);
        message.append("`: `[freq]` bracket must close at the end");
        return Err(message);
    }
    let symbol = text::trim(t.substring_char(0, open));
    assert(t@.subrange(0, open as int) =~= t@.take(open as int));
    let freq = text::trim(t.substring_char(open + 1, n - 1));
    if freq.is_empty() {
        let mut message: String = "scope `".to_owned();
        message.append(t);
        message.append("`: empty `[freq]` bracket");
        return Err(message);
    }
    if symbol.is_empty() {
        Ok((None, Some(freq.to_owned())))
    } else {
        Ok((Some(symbol.to_owned()), Some(freq.to_owned())))
    }
}

/// The scope that a `SYMBOL[FREQ]` token names, or what is wrong with it.
pub open spec fn parsed_scope(token: Seq<char>) -> Result<ScopeModel, Seq<char>> {
    match scope_parts(token) {
        Err(m) => Err(m),
        Ok((symbol, None)) => Ok(ScopeModel { symbol, freq: None }),
        Ok((symbol, Some(f))) => match frequency::parsed_frequency(f) {
            Some(freq) => Ok(ScopeModel { symbol, freq: Some(freq) }),
            None => Err("scope `"@ + token + "`: "@ + frequency::frequency_complaint(f)),
        },
    }
}

/// The scope that a `SYMBOL[FREQ]` token names; an empty token names the
/// unscoped one.
pub fn parse_scope(token: &str) -> (out: Result<Scope, String>)
    ensures
        match (out, parsed_scope(token@)) {
            (Ok(s), Ok(m)) => s@ == m,
            (Err(e), Err(m)) => e@ == m,
            _ => false,
        },
{
    match parse_scope_parts(token) {
        Err(e) => Err(e),
        Ok((symbol, None)) => Ok(Scope { symbol, freq: None }),
        Ok((symbol, Some(f))) => match Frequency::parse(&f) {
            Ok(freq) => Ok(Scope { symbol, freq: Some(freq) }),
            Err(e) => {
                let mut message: String = "scope `".to_owned();
                message.append(token);
                message.append("`: ");
                message.append(&e);
                Err(message)
            },
        },
    }
}

/// The scope before the first `:` outside brackets and what follows it; the
/// unscoped one and the whole text where there is no such `:`.
pub open spec fn split_scoped(s: Seq<char>) -> Result<(ScopeModel, Seq<char>), Seq<char>> {
    match scope_colon(s, 0) {
        None => Ok((ScopeModel { symbol: None, freq: None }, s)),
        Some(i) => match parsed_scope(text::trimmed(s.take(i))) {
            Ok(scope) => Ok((scope, s.skip(i + 1))),
            Err(m) => Err(m),
        },
    }
}

/// Split off a leading `SYMBOL[FREQ]:` prefix.
pub fn split_scope<'a>(s: &'a str) -> (out: Result<(Scope, &'a str), String>)
    ensures
        match (out, split_scoped(s@)) {
            (Ok((a, b)), Ok((x, y))) => a@ == x && b@ == y,
            (Err(e), Err(m)) => e@ == m,
            _ => false,
        },
{
    let chars: Vec<char> = text::chars_of(s);
    match find_scope_colon(&chars) {
        None => Ok((Scope::unscoped(), s)),
        Some(i) => {
            proof {
                scope_colon_in_range(s@, 0);
                assert(s@.subrange(0, i as int) =~= s@.take(i as int));
                assert(s@.subrange(i + 1, s@.len() as int) =~= s@.skip(i + 1));
            }
            let head = text::trim(s.substring_char(0, i));
            let tail = s.substring_char(i + 1, chars.len());
            match parse_scope(head) {
                Ok(scope) => Ok((scope, tail)),
                Err(e) => Err(e),
            }
        },
    }
}

/// The colon that ends a scope lies within the text.
pub proof fn scope_colon_in_range(s: Seq<char>, from: int)
    requires
        0 <= from,
    ensures
        scope_colon(s, from) matches Some(i) ==> from <= i < s.len() && is_scope_colon(s, i),
    decreases s.len() - from,
{
    if from < s.len() && !is_scope_colon(s, from) {
        scope_colon_in_range(s, from + 1);
    }
}

// ---------------------------------------------------------------------------
// Scoped settings
// ---------------------------------------------------------------------------

/// One `--bars-per-year` entry: a figure and what it is limited to.
#[derive(Debug, Clone)]
pub struct BarsPerYearSpec {
    pub scope: Scope,
    pub value: Real,
}

/// A number as it was read from a text, with the text of its value.
#[derive(Debug, Clone)]
pub struct ReadNumber {
    pub value: Real,
    pub shown: String,
}

impl BarsPerYearSpec {
    /// The scope and the figure's text of an entry: `N` or `SYMBOL[FREQ]:N`.
    pub fn parts(s: &str) -> (out: Result<(Scope, String), String>)
        ensures
            match split_scoped(text::trimmed(s@)) {
                Err(m) => out matches Err(e) && e@ == m,
                Ok((scope, body)) => if text::trimmed(body).len() == 0 {
                    out matches Err(e) && e@ == "`"@ + s@
                        + "`: missing bars-per-year value after scope"@
                } else {
                    out matches Ok((a, b)) && a@ == scope && b@ == text::trimmed(body)
                },
            },
    {
        match split_scope(text::trim(s)) {
            Err(e) => Err(e),
            Ok((scope, body)) => {
                let body = text::trim(body);
                if body.is_empty() {
                    let mut message: String = "`".to_owned();
                    message.append(s);
                    message.append("`: missing bars-per-year value after scope");
                    return Err(message);
                }
                Ok((scope, body.to_owned()))
            },
        }
    }

    /// The entry `s` with this scope, where `body` is the text of its figure and
    /// `number` what that text reads as. The figure must be finite and positive.
    pub fn from_number(s: &str, scope: Scope, body: &str, number: Option<ReadNumber>) -> (out:
        Result<BarsPerYearSpec, String>)
        ensures
            match number {
                None => out matches Err(e) && e@ == "`"@ + s@ + "`: `"@ + body@
                    + "` is not a number"@,
                Some(n) => if !n.value.finite() || n.value.at_most_zero() {
                    out matches Err(e) && e@ == "`"@ + s@
                        + "`: bars-per-year must be a finite positive number (got "@ + n.shown@
                        + ")"@
                } else {
                    out matches Ok(r) && r.scope == scope && r.value == n.value
                },
            },
    {
        let mut message: String = "`".to_owned();
        message.append(s);
        match number {
            None => {
                message.append("`: `");
                message.append(body);
                message.append("` is not a number");
                Err(message)
            },
            Some(n) => {
                if !n.value.is_finite() || n.value.not_above_zero() {
                    message.append("`: bars-per-year must be a finite positive number (got ");
                    message.append(&n.shown);
                    message.append(")");
                    return Err(message);
                }
                Ok(BarsPerYearSpec { scope, value: n.value })
            },
        }
    }
}

/// Whether entry `i` wins for a run: it covers the run, no covering entry is
/// narrower, and no later one is as narrow.
pub open spec fn wins(
    specs: Seq<BarsPerYearSpec>,
    symbol: Seq<char>,
    freq: Option<Frequency>,
    i: int,
) -> bool {
    &&& 0 <= i < specs.len()
    &&& specs[i].scope@.covers(symbol, freq)
    &&& forall|j: int|
        0 <= j < specs.len() && (#[trigger] specs[j]).scope@.covers(symbol, freq) ==> {
            &&& specs[j].scope@.rank() <= specs[i].scope@.rank()
            &&& j > i ==> specs[j].scope@.rank() < specs[i].scope@.rank()
        }
}

/// The figure of the entry that wins for a run on `symbol` at `freq`: the
/// narrowest one that covers it, the last one declared of several.
pub fn pick_bars_per_year(specs: &[BarsPerYearSpec], symbol: &str, freq: Option<Frequency>) -> (out:
    Option<Real>)
    ensures
        match out {
            Some(v) => exists|i: int| #[trigger] wins(specs@, symbol@, freq, i) && v == specs@[i].value,
            None => forall|i: int|
                0 <= i < specs@.len() ==> !(#[trigger] specs@[i]).scope@.covers(symbol@, freq),
        },
{
    let mut best: Option<usize> = None;
    let n: usize = specs.len();
    for i in 0..n
        invariant
            n == specs@.len(),
            match best {
                Some(b) => b < i && wins(specs@.take(i as int), symbol@, freq, b as int),
                None => forall|j: int|
                    0 <= j < i ==> !(#[trigger] specs@[j]).scope@.covers(symbol@, freq),
            },
    {
        if specs[i].scope.matches(symbol, freq) {
            let better: bool = match best {
                Some(b) => specs[b].scope.specificity() <= specs[i].scope.specificity(),
                None => true,
            };
            let ghost prefix = specs@.take(i as int);
            let ghost longer = specs@.take(i + 1);
            proof {
                assert(forall|j: int| 0 <= j < i ==> #[trigger] longer[j] == prefix[j]);
            }
            if better {
                best = Some(i);
                assert(wins(longer, symbol@, freq, i as int));
            } else {
                assert(wins(longer, symbol@, freq, best->0 as int));
            }
        } else {
            proof {
                let prefix = specs@.take(i as int);
                let longer = specs@.take(i + 1);
                assert(forall|j: int| 0 <= j < i ==> #[trigger] longer[j] == prefix[j]);
                if best is Some {
                    assert(wins(longer, symbol@, freq, best->0 as int));
                }
            }
        }
    }
    assert(specs@.take(n as int) =~= specs@);
    match best {
        Some(b) => {
            assert(wins(specs@, symbol@, freq, b as int));
            Some(specs[b].value)
        },
        None => None,
    }
}

/// At most one entry wins.
pub proof fn one_entry_wins(
    specs: Seq<BarsPerYearSpec>,
    symbol: Seq<char>,
    freq: Option<Frequency>,
    i: int,
    j: int,
)
    requires
        wins(specs, symbol, freq, i),
        wins(specs, symbol, freq, j),
    ensures
        i == j,
{
    assert(specs[i].scope@.covers(symbol, freq));
    assert(specs[j].scope@.covers(symbol, freq));
}

/// One `--frequency` entry: a cadence, and the symbol it is limited to.
#[derive(Debug, Clone)]
pub struct ScopedFrequency {
    pub symbol: Option<String>,
    pub value: Frequency,
}

/// The symbol and the cadence of an entry `CODE` or `SYMBOL:CODE`, or what is
/// wrong with it.
pub open spec fn parsed_scoped_frequency(s: Seq<char>) -> Result<
    (Option<Seq<char>>, Frequency),
    Seq<char>,
> {
    match split_scoped(text::trimmed(s)) {
        Err(m) => Err(m),
        Ok((scope, body)) => {
            let b = text::trimmed(body);
            if scope.freq is Some {
                Err(
                    "`"@ + s
                        + "`: `[freq]` scope isn't meaningful on --frequency (the value is a freq)"@,
                )
            } else if b.len() == 0 {
                Err("`"@ + s + "`: missing frequency code after scope"@)
            } else {
                match frequency::parsed_frequency(b) {
                    Some(f) => Ok((scope.symbol, f)),
                    None => Err("`"@ + s + "`: "@ + frequency::frequency_complaint(b)),
                }
            }
        },
    }
}

impl ScopedFrequency {
    /// The entry that `s` spells.
    pub fn parse(s: &str) -> (out: Result<ScopedFrequency, String>)
        ensures
            match (out, parsed_scoped_frequency(s@)) {
                (Ok(f), Ok((symbol, value))) => text_of(f.symbol) == symbol && f.value == value,
                (Err(e), Err(m)) => e@ == m,
                _ => false,
            },
    {
        let mut message: String = "`".to_owned();
        message.append(s);
        match split_scope(text::trim(s)) {
            Err(e) => Err(e),
            Ok((scope, body)) => {
                if scope.freq.is_some() {
                    message.append(
                        "`: `[freq]` scope isn't meaningful on --frequency (the value is a freq)",
                    );
                    return Err(message);
                }
                let body = text::trim(body);
                if body.is_empty() {
                    message.append("`: missing frequency code after scope");
                    return Err(message);
                }
                match Frequency::parse(body) {
                    Ok(value) => Ok(ScopedFrequency { symbol: scope.symbol, value }),
                    Err(e) => {
                        message.append("`: ");
                        message.append(&e);
                        Err(message)
                    },
                }
            },
        }
    }
}

impl FromStr for ScopedFrequency {
    type Err = String;

    fn from_str(s: &str) -> Result<ScopedFrequency, String> {
        ScopedFrequency::parse(s)
    }
}

/// Whether a `--frequency` entry covers a symbol.
pub open spec fn names(entry: ScopedFrequency, symbol: Seq<char>) -> bool {
    entry.symbol matches Some(s) ==> s@ == symbol
}

/// Whether entry `i` wins for `symbol`: it covers the symbol; where it has none
/// of its own, no covering entry has one; and no later entry of its kind covers
/// the symbol.
pub open spec fn frequency_wins(specs: Seq<ScopedFrequency>, symbol: Seq<char>, i: int) -> bool {
    &&& 0 <= i < specs.len()
    &&& names(specs[i], symbol)
    &&& forall|j: int|
        0 <= j < specs.len() && names(#[trigger] specs[j], symbol) ==> {
            &&& specs[j].symbol is Some ==> specs[i].symbol is Some
            &&& j > i ==> specs[j].symbol is None && specs[i].symbol is Some
        }
}

/// The cadence of the entry that wins for `symbol`, where one covers it.
pub open spec fn picked_frequency(specs: Seq<ScopedFrequency>, symbol: Seq<char>) -> Option<
    Frequency,
> {
    if exists|i: int| frequency_wins(specs, symbol, i) {
        Some(specs[choose|i: int| frequency_wins(specs, symbol, i)].value)
    } else {
        None
    }
}

/// At most one entry wins, and none where no entry covers the symbol.
pub proof fn one_frequency_wins(specs: Seq<ScopedFrequency>, symbol: Seq<char>, i: int)
    requires
        frequency_wins(specs, symbol, i),
    ensures
        picked_frequency(specs, symbol) == Some(specs[i].value),
{
    let j = choose|j: int| frequency_wins(specs, symbol, j);
    assert(names(specs[i], symbol));
    assert(names(specs[j], symbol));
}

/// The cadence of the entry that wins for `symbol`: one for that symbol before
/// an unscoped one, the last one declared of several.
pub fn pick_frequency(specs: &[ScopedFrequency], symbol: &str) -> (out: Option<Frequency>)
    ensures
        match out {
            Some(v) => exists|i: int| #[trigger] frequency_wins(specs@, symbol@, i) && v == specs@[i].value,
            None => forall|i: int| 0 <= i < specs@.len() ==> !names(#[trigger] specs@[i], symbol@),
        },
        out == picked_frequency(specs@, symbol@),
{
    let mut best: Option<usize> = None;
    let n: usize = specs.len();
    for i in 0..n
        invariant
            n == specs@.len(),
            match best {
                Some(b) => b < i && frequency_wins(specs@.take(i as int), symbol@, b as int),
                None => forall|j: int| 0 <= j < i ==> !names(#[trigger] specs@[j], symbol@),
            },
    {
        let covers: bool = match &specs[i].symbol {
            Some(s) => text::same(s, symbol),
            None => true,
        };
        let better: bool = covers && match best {
            Some(b) => specs[i].symbol.is_some() || specs[b].symbol.is_none(),
            None => true,
        };
        let ghost prefix = specs@.take(i as int);
        let ghost longer = specs@.take(i + 1);
        assert(forall|j: int| 0 <= j < i ==> #[trigger] longer[j] == prefix[j]);
        if better {
            best = Some(i);
            assert(frequency_wins(longer, symbol@, i as int));
        } else if best.is_some() {
            assert(frequency_wins(longer, symbol@, best->0 as int));
        }
    }
    assert(specs@.take(n as int) =~= specs@);
    match best {
        Some(b) => {
            proof {
                one_frequency_wins(specs@, symbol@, b as int);
            }
            Some(specs[b].value)
        },
        None => None,
    }
}

/// Bars below a day tile the trading year: as many bars as a year has, times the
/// trading seconds of one, are the trading seconds of the year. The same holds of
/// days, weeks and months.
pub proof fn bars_tile_the_year(class: AssetClass, freq: Frequency)
    ensures
        class.yearly_bars(freq).0 * class.bar_seconds(freq).0 == class.year_seconds()
            * class.yearly_bars(freq).1 * class.bar_seconds(freq).1,
        class.yearly_bars(freq).1 == freq.count(),
        class.bar_seconds(freq).1 > 0,
{
    let n = freq.count() as nat;
    let year = class.year_seconds();
    let day = class.day_seconds();
    let days = class.days();
    match freq {
        Frequency::Minute(_) => {
            assert((year / 60) * (n * 60) == year * n) by (nonlinear_arith)
                requires
                    year == 5_896_800 || year == 22_464_000 || year == 31_536_000,
            ;
        },
        Frequency::Hour(_) => {
            assert((year / 3_600) * (n * 3_600) == year * n) by (nonlinear_arith)
                requires
                    year == 5_896_800 || year == 22_464_000 || year == 31_536_000,
            ;
        },
        Frequency::Day(_) => {
            assert(days * (n * day) == (days * day) * n) by (nonlinear_arith);
        },
        Frequency::Week(_) => {
            assert(52 * (n * year) == year * n * 52) by (nonlinear_arith);
        },
        Frequency::Month(_) => {
            assert(12 * (n * year) == year * n * 12) by (nonlinear_arith);
        },
    }
}

/// Cadences that last as long have the same figures: an hour is sixty minutes, a
/// trading day of 24 hours (13 half hours of stocks) is those hours, a year is 52
/// weeks, 12 months, and its trading days. A bar of several units lasts several
/// times as long as a bar of one.
pub proof fn equal_cadences_agree(class: AssetClass, n: u32)
    ensures
        n <= u32::MAX / 60 ==> class.bar_seconds(Frequency::Minute((60 * n) as u32))
            == class.bar_seconds(Frequency::Hour(n)),
        n <= u32::MAX / 60 ==> class.yearly_bars(Frequency::Hour(n)).0 * class.yearly_bars(
            Frequency::Minute((60 * n) as u32),
        ).1 == class.yearly_bars(Frequency::Minute((60 * n) as u32)).0 * class.yearly_bars(
            Frequency::Hour(n),
        ).1,
        class.bar_seconds(Frequency::Minute(1)) == (60nat, 1nat),
        class != AssetClass::Stocks && n <= u32::MAX / 24 ==> class.bar_seconds(
            Frequency::Hour((24 * n) as u32),
        ) == class.bar_seconds(Frequency::Day(n)),
        class == AssetClass::Stocks ==> 2 * class.bar_seconds(Frequency::Day(n)).0
            == class.bar_seconds(Frequency::Minute(60)).0 * 13 * n,
        class.yearly_bars(Frequency::Day(1)).0 == (match class {
            AssetClass::Stocks => 252nat,
            AssetClass::Forex => 260nat,
            AssetClass::Crypto => 365nat,
        }),
        class.bar_seconds(Frequency::Day(1)).0 * class.yearly_bars(Frequency::Day(1)).0
            == class.year_seconds(),
        class.yearly_bars(Frequency::Week(1)) == (52nat, 1nat),
        class.yearly_bars(Frequency::Month(1)) == (12nat, 1nat),
{
    let year = class.year_seconds();
    assert(class.bar_seconds(Frequency::Minute(60)).0 == 3_600);
    assert(3_600 * 13 * n == 2 * (n * 23_400)) by (nonlinear_arith);
    assert((year / 60) * n == (year / 3_600) * (60 * n)) by (nonlinear_arith)
        requires
            year == 5_896_800 || year == 22_464_000 || year == 31_536_000,
    ;
}

/// A window is the whole number of bars whose trading seconds come nearest to its
/// own: no more than half a bar away, where a machine word can hold it.
pub proof fn window_is_nearest(win: Frequency, bar: Frequency, class: AssetClass)
    requires
        bar.count() > 0,
        WindowSpec::bars_of(win, bar, class) < usize::MAX,
    ensures
        ({
            let n = WindowSpec::bars_of(win, bar, class);
            let (wn, wd) = class.bar_seconds(win);
            let (bn, bd) = class.bar_seconds(bar);
            // In units of one part in `wd * bd` of a second.
            let target = (wn * bd) as int;
            let step = (bn * wd) as int;
            -step <= 2 * (n * step - target) <= step
        }),
        WindowSpec::bars_of(bar, bar, class) == 1,
{
    let (wn, wd) = class.bar_seconds(win);
    let (bn, bd) = class.bar_seconds(bar);
    let n = WindowSpec::bars_of(win, bar, class);
    bar_is_not_empty(bar, class);
    let num = wn * bd;
    let den = wd * bn;
    assert(den > 0) by (nonlinear_arith)
        requires
            den == wd * bn,
            wd > 0,
            bn > 0,
    ;
    assert(bn * wd == wd * bn) by (nonlinear_arith);
    nearest_is_near(num, den);
    assert(n == nearest(num, den));
    let one = bn * bd;
    assert(one > 0) by (nonlinear_arith)
        requires
            one == bn * bd,
            bn > 0,
            bd > 0,
    ;
    assert(bd * bn == bn * bd) by (nonlinear_arith);
    assert(nearest(one, one) == 1) by (nonlinear_arith)
        requires
            nearest(one, one) == (2 * one + one) / (2 * one),
            one > 0,
    ;
}

proof fn bar_is_not_empty(bar: Frequency, class: AssetClass)
    requires
        bar.count() > 0,
    ensures
        class.bar_seconds(bar).0 > 0,
        class.bar_seconds(bar).1 > 0,
{
    let unit = class.bar_seconds(bar).0;
    assert(unit > 0) by (nonlinear_arith)
        requires
            bar.count() > 0,
            unit == bar.count() as nat * 60 || unit == bar.count() as nat * 3_600 || unit
                == bar.count() as nat * class.day_seconds() || unit == bar.count() as nat
                * class.year_seconds(),
            class.day_seconds() > 0,
            class.year_seconds() > 0,
    ;
}

proof fn nearest_is_near(num: nat, den: nat)
    requires
        den > 0,
    ensures
        -(den as int) <= 2 * (nearest(num, den) * den - num) <= den,
{
    let n = nearest(num, den);
    assert(2 * num + den - 2 * den < n * (2 * den) <= 2 * num + den) by (nonlinear_arith)
        requires
            n == (2 * num + den) / (2 * den),
            den > 0,
    ;
    assert(n * (2 * den) == 2 * (n * den)) by (nonlinear_arith);
}

/// A stamp in seconds and the same stamp in milliseconds are the same time, where the
/// two can be told apart; and a stamp in milliseconds is taken as it is.
pub proof fn seconds_and_milliseconds_agree(n: int)
    requires
        -100_000_000_000 <= n <= 100_000_000_000,
    ensures
        epoch_millis(n) == n * 1000,
        n > 100_000_000 || n < -100_000_000 ==> epoch_millis(n * 1000) == epoch_millis(n),
{
}

/// Later stamps are later times, within the seconds and within the milliseconds.
pub proof fn stamps_keep_their_order(a: int, b: int)
    requires
        a < b,
        (-100_000_000_000 <= a && b <= 100_000_000_000) || a > 100_000_000_000 || b
            < -100_000_000_000,
    ensures
        epoch_millis(a) < epoch_millis(b),
{
}

/// A number is a stamp whatever else its text names; else an instant with an offset
/// comes before a date with a time, and that before a date alone.
pub proof fn the_first_reading_counts(
    raw: Seq<char>,
    rfc3339: Option<i64>,
    datetime: Option<i64>,
    date: Option<i64>,
)
    requires
        text::trimmed(raw).len() > 0,
    ensures
        text::parsed_signed(text::trimmed(raw)) matches Some(n) ==> millis_of(
            raw,
            rfc3339,
            datetime,
            date,
        ) == millis_of(raw, None, None, None) && millis_of(raw, rfc3339, datetime, date) is Some,
        text::parsed_signed(text::trimmed(raw)) is None ==> {
            &&& rfc3339 matches Some(v) ==> millis_of(raw, rfc3339, datetime, date) == Some(
                1000 * v,
            )
            &&& rfc3339 is None && datetime is Some ==> millis_of(raw, rfc3339, datetime, date)
                == Some(1000 * datetime->0)
            &&& rfc3339 is None && datetime is None && date is Some ==> millis_of(
                raw,
                rfc3339,
                datetime,
                date,
            ) == Some(1000 * date->0)
            &&& rfc3339 is None && datetime is None && date is None ==> millis_of(
                raw,
                rfc3339,
                datetime,
                date,
            ) is None
        },
{
}

/// The cadences that a gap can be taken for, by their seconds.
pub open spec fn named_lengths() -> Seq<int> {
    seq![60, 300, 900, 1_800, 3_600, 14_400, 86_400, 604_800, 2_592_000]
}

proof fn named_seconds()
    ensures
        Frequency::Minute(1).seconds() == 60,
        Frequency::Minute(5).seconds() == 300,
        Frequency::Minute(15).seconds() == 900,
        Frequency::Minute(30).seconds() == 1_800,
        Frequency::Hour(1).seconds() == 3_600,
        Frequency::Hour(4).seconds() == 14_400,
        Frequency::Day(1).seconds() == 86_400,
        Frequency::Week(1).seconds() == 604_800,
        Frequency::Month(1).seconds() == 2_592_000,
{
    assert(Frequency::Minute(15).count() == 15 && Frequency::Minute(15).unit_seconds() == 60);
    assert(Frequency::Hour(4).count() == 4 && Frequency::Hour(4).unit_seconds() == 3_600);
}

/// A gap is taken for one of the named cadences, and a gap as long as one of them for
/// that one. A longer gap is never taken for a shorter cadence.
#[verifier::rlimit(40)]
pub proof fn named_gaps_snap_to_themselves(secs: int, more: int)
    requires
        secs <= more,
    ensures
        named_lengths().contains(snapped(secs).seconds() as int),
        named_lengths().contains(secs) ==> snapped(secs).seconds() == secs,
        snapped(secs).seconds() <= snapped(more).seconds(),
{
    let all = named_lengths();
    assert(all[0] == 60 && all[1] == 300 && all[2] == 900 && all[3] == 1_800 && all[4] == 3_600
        && all[5] == 14_400 && all[6] == 86_400 && all[7] == 604_800 && all[8] == 2_592_000);
    if all.contains(secs) {
        let i = choose|i: int| 0 <= i < all.len() && all[i] == secs;
        assert(i == 0 || i == 1 || i == 2 || i == 3 || i == 4 || i == 5 || i == 6 || i == 7 || i
            == 8);
    }
    named_seconds();
    let s = snapped(secs).seconds() as int;
    assert(s == 60 || s == 300 || s == 900 || s == 1_800 || s == 3_600 || s == 14_400 || s == 86_400
        || s == 604_800 || s == 2_592_000);
    let k = if s == 60 {
        0int
    } else if s == 300 {
        1
    } else if s == 900 {
        2
    } else if s == 1_800 {
        3
    } else if s == 3_600 {
        4
    } else if s == 14_400 {
        5
    } else if s == 86_400 {
        6
    } else if s == 604_800 {
        7
    } else {
        8
    };
    assert(all[k] == s);
}

/// Of two neighbouring cadences a gap is taken for the one that it is nearer to by
/// ratio: for the shorter one, or one below, where the square of the gap lies below
/// the product of the two, and else for the longer one, or one above; but for three
/// parts in a thousand, by which the limits are rounded.
#[verifier::rlimit(40)]
pub proof fn gaps_snap_by_ratio(secs: int, i: int)
    requires
        secs >= 0,
        0 <= i < 8,
    ensures
        secs * secs * 1000 < 997 * (named_lengths()[i] * named_lengths()[i + 1])
            ==> snapped(secs).seconds() <= named_lengths()[i],
        secs * secs * 1000 > 1003 * (named_lengths()[i] * named_lengths()[i + 1])
            ==> snapped(secs).seconds() >= named_lengths()[i + 1],
{
    let all = named_lengths();
    named_seconds();
    assert(all[0] == 60 && all[1] == 300 && all[2] == 900 && all[3] == 1_800 && all[4] == 3_600
        && all[5] == 14_400 && all[6] == 86_400 && all[7] == 604_800 && all[8] == 2_592_000);
    assert(60int * 300 == 18_000 && 300int * 900 == 270_000 && 900int * 1_800 == 1_620_000);
    assert(1_800int * 3_600 == 6_480_000 && 3_600int * 14_400 == 51_840_000);
    assert(14_400int * 86_400 == 1_244_160_000 && 86_400int * 604_800 == 52_254_720_000);
    assert(604_800int * 2_592_000 == 1_567_641_600_000);
    squares_grow(secs, 134, 133);
    squares_grow(secs, 520, 519);
    squares_grow(secs, 1_273, 1_272);
    squares_grow(secs, 2_545, 2_544);
    squares_grow(secs, 7_201, 7_200);
    squares_grow(secs, 35_300, 35_299);
    squares_grow(secs, 228_700, 228_699);
    squares_grow(secs, 1_252_000, 1_251_999);
}

proof fn squares_grow(x: int, over: int, under: int)
    requires
        x >= 0,
        over == under + 1,
        under >= 0,
    ensures
        x >= over ==> x * x >= over * over,
        x < over ==> x * x <= under * under,
{
    assert(x >= over ==> x * x >= over * over) by (nonlinear_arith)
        requires
            x >= 0,
            over >= 0,
    ;
    assert(x <= under ==> x * x <= under * under) by (nonlinear_arith)
        requires
            x >= 0,
            under >= 0,
    ;
}

/// The gaps of a series are the differences of neighbouring stamps that are above
/// zero, in order.
pub proof fn gaps_are_differences(stamps: Seq<i64>)
    requires
        stamps.len() > 0,
    ensures
        positive_gaps(stamps) == Seq::new(
            (stamps.len() - 1) as nat,
            |i: int| (stamps[i + 1] - stamps[i]) as i128,
        ).filter(|g: i128| g > 0),
    decreases stamps.len(),
{
    reveal(Seq::filter);
    let all = Seq::new(
        (stamps.len() - 1) as nat,
        |i: int| (stamps[i + 1] - stamps[i]) as i128,
    );
    if stamps.len() > 1 {
        let less = stamps.drop_last();
        gaps_are_differences(less);
        assert(all.drop_last() =~= Seq::new(
            (less.len() - 1) as nat,
            |i: int| (less[i + 1] - less[i]) as i128,
        ));
    }
}

/// A series has the cadence next to the middle one of its gaps, by size: as many gaps
/// stand before it in ascending order as behind it, or one more.
pub proof fn the_middle_gap_decides(stamps: Seq<i64>)
    ensures
        detected(stamps) is None <==> positive_gaps(stamps).len() == 0,
        positive_gaps(stamps).len() > 0 ==> exists|sorted: Seq<i128>| #[trigger]
            sorted.to_multiset() == positive_gaps(stamps).to_multiset() && sorted.len()
                == positive_gaps(stamps).len() && (forall|i: int, j: int|
                0 <= i <= j < sorted.len() ==> sorted[i] <= sorted[j]) && detected(stamps) == Some(
                snapped(sorted[sorted.len() as int / 2] as int / 1000),
            ),
{
    let gaps = positive_gaps(stamps);
    in_order_is_ascending(gaps);
    let sorted = in_order(gaps);
    assert(sorted.to_multiset() == gaps.to_multiset());
}

/// A series of evenly spaced stamps has the cadence next to its spacing.
pub proof fn even_series_have_their_spacing(start: i64, gap: int, n: nat)
    requires
        n >= 2,
        gap > 0,
        start + gap * (n - 1) <= i64::MAX,
    ensures
        detected(Seq::new(n, |i: int| (start + gap * i) as i64)) == Some(snapped(gap / 1000)),
{
    let stamps = Seq::new(n, |i: int| (start + gap * i) as i64);
    let all = Seq::new((n - 1) as nat, |i: int| (stamps[i + 1] - stamps[i]) as i128);
    assert forall|i: int| 0 <= i < n - 1 implies #[trigger] all[i] == gap by {
        assert(start <= start + gap * i <= start + gap * (n - 1)) by (nonlinear_arith)
            requires
                gap > 0,
                0 <= i < n,
        ;
        assert(start <= start + gap * (i + 1) <= start + gap * (n - 1)) by (nonlinear_arith)
            requires
                gap > 0,
                0 <= i + 1 < n,
        ;
        assert(gap * (i + 1) - gap * i == gap) by (nonlinear_arith);
        assert(gap <= gap * (n - 1)) by (nonlinear_arith)
            requires
                gap > 0,
                n >= 2,
        ;
    }
    gaps_are_differences(stamps);
    all_kept(all, |g: i128| g > 0);
    assert(positive_gaps(stamps) == all);
    in_order_is_ascending(all);
    let sorted = in_order(all);
    let m = sorted[sorted.len() as int / 2];
    assert(sorted.contains(m));
    vstd::seq_lib::to_multiset_contains(sorted, m);
    vstd::seq_lib::to_multiset_contains(all, m);
    assert(all.contains(m));
}

proof fn all_kept(s: Seq<i128>, keep: spec_fn(i128) -> bool)
    requires
        forall|i: int| 0 <= i < s.len() ==> keep(#[trigger] s[i]),
    ensures
        s.filter(keep) == s,
    decreases s.len(),
{
    reveal(Seq::filter);
    if s.len() > 0 {
        all_kept(s.drop_last(), keep);
        assert(s.drop_last().push(s.last()) =~= s);
    }
}

/// The scope without halves covers every run; one with a symbol covers that symbol
/// alone, one with a cadence that cadence alone. A scope with both halves is narrower
/// than one with a symbol, that one than one with a cadence, and that one than the
/// scope without halves.
pub proof fn scopes_narrow(
    symbol: Seq<char>,
    freq: Frequency,
    other: Seq<char>,
    run: Option<Frequency>,
)
    ensures
        ({
            let none = ScopeModel { symbol: None, freq: None };
            let by_symbol = ScopeModel { symbol: Some(symbol), freq: None };
            let by_freq = ScopeModel { symbol: None, freq: Some(freq) };
            let both = ScopeModel { symbol: Some(symbol), freq: Some(freq) };
            &&& none.covers(other, run)
            &&& by_symbol.covers(other, run) <==> other == symbol
            &&& by_freq.covers(other, run) <==> run == Some(freq)
            &&& both.covers(other, run) <==> other == symbol && run == Some(freq)
            &&& none.rank() < by_freq.rank() < by_symbol.rank() < both.rank()
        }),
{
}

/// An entry that is added last wins for a run that it covers, unless a narrower one
/// covers it too; one that does not cover the run changes nothing.
pub proof fn later_entries_win(
    specs: Seq<BarsPerYearSpec>,
    more: BarsPerYearSpec,
    symbol: Seq<char>,
    freq: Option<Frequency>,
    i: int,
)
    ensures
        ({
            let longer = specs.push(more);
            let covers = more.scope@.covers(symbol, freq);
            &&& !covers && 0 <= i < specs.len() ==> (wins(longer, symbol, freq, i) <==> wins(
                specs,
                symbol,
                freq,
                i,
            ))
            &&& covers && (forall|j: int|
                0 <= j < specs.len() && (#[trigger] specs[j]).scope@.covers(symbol, freq)
                    ==> specs[j].scope@.rank() <= more.scope@.rank()) ==> wins(
                longer,
                symbol,
                freq,
                specs.len() as int,
            )
            &&& covers && wins(specs, symbol, freq, i) && more.scope@.rank()
                < specs[i].scope@.rank() ==> wins(longer, symbol, freq, i)
        }),
{
    let longer = specs.push(more);
    assert(forall|j: int| 0 <= j < specs.len() ==> #[trigger] longer[j] == specs[j]);
    assert(forall|j: int| 0 <= j < specs.len() ==> #[trigger] specs[j] == longer[j]);
    assert(longer[specs.len() as int] == more);
}

/// A cadence that is given last for a symbol is the symbol's; one for all symbols is
/// that of the symbols without one of their own; one for another symbol changes
/// nothing.
#[verifier::rlimit(40)]
pub proof fn later_cadences_win(
    specs: Seq<ScopedFrequency>,
    more: ScopedFrequency,
    symbol: Seq<char>,
)
    ensures
        ({
            let longer = specs.push(more);
            &&& (more.symbol matches Some(s) && s@ == symbol) ==> picked_frequency(longer, symbol)
                == Some(more.value)
            &&& (more.symbol is None && forall|j: int|
                0 <= j < specs.len() && (#[trigger] specs[j]).symbol is Some
                    ==> specs[j].symbol->0@ != symbol) ==> picked_frequency(longer, symbol) == Some(
                more.value,
            )
            &&& (more.symbol matches Some(s) && s@ != symbol) ==> picked_frequency(longer, symbol)
                == picked_frequency(specs, symbol)
            &&& (more.symbol is None && exists|j: int|
                0 <= j < specs.len() && (#[trigger] specs[j]).symbol is Some
                    && specs[j].symbol->0@ == symbol) ==> picked_frequency(longer, symbol)
                == picked_frequency(specs, symbol)
        }),
        picked_frequency(Seq::<ScopedFrequency>::empty(), symbol) is None,
{
    let longer = specs.push(more);
    let n = specs.len() as int;
    assert(forall|j: int| 0 <= j < n ==> #[trigger] longer[j] == specs[j]);
    assert(forall|j: int| 0 <= j < n ==> #[trigger] specs[j] == longer[j]);
    assert(longer[n] == more);
    if names(more, symbol) && (more.symbol is Some || forall|j: int|
        0 <= j < n && (#[trigger] specs[j]).symbol is Some ==> specs[j].symbol->0@ != symbol) {
        assert(frequency_wins(longer, symbol, n));
        one_frequency_wins(longer, symbol, n);
    } else {
        assert forall|i: int| 0 <= i < n implies (frequency_wins(longer, symbol, i)
            <==> #[trigger] frequency_wins(specs, symbol, i)) by {
            if frequency_wins(longer, symbol, i) {
                assert forall|j: int| 0 <= j < n && names(#[trigger] specs[j], symbol) implies {
                    &&& specs[j].symbol is Some ==> specs[i].symbol is Some
                    &&& j > i ==> specs[j].symbol is None && specs[i].symbol is Some
                } by {
                    assert(names(longer[j], symbol));
                }
            }
            if frequency_wins(specs, symbol, i) {
                if more.symbol is None {
                    let j = choose|j: int|
                        0 <= j < n && (#[trigger] specs[j]).symbol is Some && specs[j].symbol->0@
                            == symbol;
                    assert(names(specs[j], symbol));
                }
                assert forall|j: int|
                    0 <= j < longer.len() && names(#[trigger] longer[j], symbol) implies {
                    &&& longer[j].symbol is Some ==> longer[i].symbol is Some
                    &&& j > i ==> longer[j].symbol is None && longer[i].symbol is Some
                } by {
                    if j < n {
                        assert(names(specs[j], symbol));
                    }
                }
            }
        }
        if frequency_wins(longer, symbol, n) {
            if more.symbol is None {
                let j = choose|j: int|
                    0 <= j < n && (#[trigger] specs[j]).symbol is Some && specs[j].symbol->0@
                        == symbol;
                assert(names(longer[j], symbol));
            }
            assert(false);
        }
        if exists|i: int| frequency_wins(specs, symbol, i) {
            let i = choose|i: int| frequency_wins(specs, symbol, i);
            assert(frequency_wins(longer, symbol, i));
            one_frequency_wins(specs, symbol, i);
            one_frequency_wins(longer, symbol, i);
        } else if exists|i: int| frequency_wins(longer, symbol, i) {
            let i = choose|i: int| frequency_wins(longer, symbol, i);
            assert(i < n);
            assert(frequency_wins(specs, symbol, i));
        }
    }
    assert forall|i: int| !frequency_wins(Seq::<ScopedFrequency>::empty(), symbol, i) by {}
}

/// A `SYMBOL[FREQ]` token: the symbol, where there is one, and the code of the cadence
/// in brackets, where there is one.
pub open spec fn scope_text(scope: ScopeModel) -> Seq<char> {
    (match scope.symbol {
        Some(s) => s,
        None => seq![],
    }) + (match scope.freq {
        Some(f) => seq!['['] + f.code() + seq![']'],
        None => seq![],
    })
}

/// Whether a symbol can stand in a token: it has no brackets, colons or equals signs,
/// and no white space at its ends.
pub open spec fn is_plain_symbol(s: Seq<char>) -> bool {
    &&& s.len() > 0
    &&& !text::is_space(s[0])
    &&& !text::is_space(s.last())
    &&& forall|i: int|
        0 <= i < s.len() ==> (#[trigger] s[i]) != '[' && s[i] != ']' && s[i] != '{' && s[i] != '}'
            && s[i] != ':' && s[i] != '='
}

/// Whether a scope can be written as a token.
pub open spec fn is_plain_scope(scope: ScopeModel) -> bool {
    (scope.symbol matches Some(s) ==> is_plain_symbol(s)) && (scope.freq matches Some(f)
        ==> f.count() > 0)
}

proof fn code_is_plain(f: Frequency)
    requires
        f.count() > 0,
    ensures
        f.code().len() > 0,
        is_plain_symbol(f.code()),
{
    frequency::trimmed_of_code(f);
    text::decimal_reads_back(f.count() as nat);
    let digits = text::decimal(f.count() as nat);
    let code = f.code();
    assert forall|i: int| 0 <= i < code.len() implies (#[trigger] code[i]) != '[' && code[i] != ']'
        && code[i] != '{' && code[i] != '}' && code[i] != ':' && code[i] != '=' && !text::is_space(
        code[i],
    ) by {
        if i < digits.len() {
            assert(code[i] == digits[i]);
            assert(text::is_digit(digits[i]));
        } else {
            assert(code[i] == f.letter());
        }
    }
}

/// Reading the token of a scope gives the scope back.
pub proof fn a_scope_reads_back(scope: ScopeModel)
    requires
        is_plain_scope(scope),
    ensures
        parsed_scope(scope_text(scope)) == Ok::<ScopeModel, Seq<char>>(scope),
        text::trimmed(scope_text(scope)) == scope_text(scope),
{
    let t = scope_text(scope);
    let symbol = match scope.symbol {
        Some(s) => s,
        None => seq![],
    };
    let none = Seq::<char>::empty();
    text::trimmed_stays(none);
    text::white_space('[');
    text::white_space(']');
    match scope.freq {
        Some(f) => {
            code_is_plain(f);
            frequency::code_reads_back(f);
            frequency::trimmed_of_code(f);
            let open = symbol.len() as int;
            assert(t[open] == '[');
            assert(t.last() == ']');
            assert(t[0] == (if open > 0 {
                symbol[0]
            } else {
                '['
            }));
            text::trimmed_stays(t);
            assert forall|i: int| 0 <= i < open implies t[i] != '[' by {
                assert(t[i] == symbol[i]);
            }
            text::position_at(t, '[', open);
            assert(t.take(open) =~= symbol);
            assert(t.subrange(open + 1, t.len() - 1) =~= f.code());
            text::trimmed_stays(symbol);
        },
        None => {
            assert(t =~= symbol);
            text::trimmed_stays(t);
            text::position_is_first(t, '[');
            if text::position(t, '[') < t.len() {
                assert(t[text::position(t, '[')] == '[');
            }
        },
    }
}

proof fn depths_add(a: Seq<char>, b: Seq<char>)
    ensures
        bracket_depth(a + b) == bracket_depth(a) + bracket_depth(b),
    decreases b.len(),
{
    if b.len() == 0 {
        assert(a + b =~= a);
    } else {
        assert((a + b).drop_last() =~= a + b.drop_last());
        depths_add(a, b.drop_last());
    }
}

/// A text without brackets has no depth.
pub proof fn plain_text_is_flat(s: Seq<char>)
    requires
        forall|i: int|
            0 <= i < s.len() ==> (#[trigger] s[i]) != '[' && s[i] != ']' && s[i] != '{' && s[i]
                != '}',
    ensures
        bracket_depth(s) == 0,
    decreases s.len(),
{
    if s.len() > 0 {
        assert forall|i: int| 0 <= i < s.drop_last().len() implies (#[trigger] s.drop_last()[i])
            != '[' && s.drop_last()[i] != ']' && s.drop_last()[i] != '{' && s.drop_last()[i]
            != '}' by {
            assert(s.drop_last()[i] == s[i]);
        }
        plain_text_is_flat(s.drop_last());
    }
}

/// The token of a scope closes all brackets that it opens, and has no colon or equals
/// sign in it.
pub proof fn scope_text_is_closed(scope: ScopeModel)
    requires
        is_plain_scope(scope),
    ensures
        bracket_depth(scope_text(scope)) == 0,
        forall|i: int|
            0 <= i < scope_text(scope).len() ==> (#[trigger] scope_text(scope)[i]) != ':'
                && scope_text(scope)[i] != '=',
{
    let t = scope_text(scope);
    let symbol = match scope.symbol {
        Some(s) => s,
        None => seq![],
    };
    plain_text_is_flat(symbol);
    match scope.freq {
        Some(f) => {
            code_is_plain(f);
            plain_text_is_flat(f.code());
            let open = seq!['['];
            let close = seq![']'];
            reveal_with_fuel(bracket_depth, 2);
            assert(open.drop_last() =~= Seq::<char>::empty());
            assert(close.drop_last() =~= Seq::<char>::empty());
            depths_add(open, f.code());
            depths_add(open + f.code(), close);
            depths_add(symbol, open + f.code() + close);
            let tail = open + f.code() + close;
            assert forall|i: int| 0 <= i < t.len() implies (#[trigger] t[i]) != ':' && t[i]
                != '=' by {
                if i < symbol.len() {
                    assert(t[i] == symbol[i]);
                } else {
                    let j = i - symbol.len();
                    assert(t[i] == tail[j]);
                    if 0 < j <= f.code().len() {
                        assert(tail[j] == f.code()[j - 1]);
                    }
                }
            }
        },
        None => {
            assert(t =~= symbol);
        },
    }
}

proof fn colon_is_found(s: Seq<char>, from: int, k: int)
    requires
        0 <= from <= k,
        is_scope_colon(s, k),
        forall|i: int| from <= i < k ==> s[i] != ':',
    ensures
        scope_colon(s, from) == Some(k),
    decreases k - from,
{
    if from < k {
        colon_is_found(s, from + 1, k);
    }
}

/// A token in front of a colon is split off as the scope that it spells, and what
/// follows the colon is left as it is.
pub proof fn a_scoped_text_reads_back(scope: ScopeModel, body: Seq<char>)
    requires
        is_plain_scope(scope),
    ensures
        split_scoped(scope_text(scope) + seq![':'] + body) == Ok::<
            (ScopeModel, Seq<char>),
            Seq<char>,
        >((scope, body)),
{
    let head = scope_text(scope);
    let s = head + seq![':'] + body;
    let k = head.len() as int;
    a_scope_reads_back(scope);
    scope_text_is_closed(scope);
    assert(s.take(k) =~= head);
    assert(s.skip(k + 1) =~= body);
    assert forall|i: int| 0 <= i < k implies s[i] != ':' by {
        assert(s[i] == head[i]);
    }
    colon_is_found(s, 0, k);
}

/// A cadence for one symbol, or for all, is read from the symbol, a colon and its code.
pub proof fn a_scoped_cadence_reads_back(symbol: Option<Seq<char>>, f: Frequency)
    requires
        f.count() > 0,
        symbol matches Some(s) ==> is_plain_symbol(s),
    ensures
        parsed_scoped_frequency(
            (match symbol {
                Some(s) => s + seq![':'],
                None => seq![],
            }) + f.code(),
        ) == Ok::<(Option<Seq<char>>, Frequency), Seq<char>>((symbol, f)),
{
    let code = f.code();
    code_is_plain(f);
    frequency::trimmed_of_code(f);
    frequency::code_reads_back(f);
    match symbol {
        Some(s) => {
            let scope = ScopeModel { symbol, freq: None };
            let t = s + seq![':'] + code;
            assert(scope_text(scope) =~= s);
            a_scoped_text_reads_back(scope, code);
            assert(t[0] == s[0] && t.last() == code.last());
            text::trimmed_stays(t);
        },
        None => {
            let t = Seq::<char>::empty() + code;
            assert(t =~= code);
            no_colon(code, 0);
        },
    }
}

proof fn no_colon(s: Seq<char>, from: int)
    requires
        0 <= from,
        forall|i: int| 0 <= i < s.len() ==> s[i] != ':',
    ensures
        scope_colon(s, from) is None,
    decreases s.len() - from,
{
    if from < s.len() {
        no_colon(s, from + 1);
    }
}

} // verus!
