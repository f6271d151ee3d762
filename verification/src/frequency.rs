//! Bar cadences: `1m`, `4h`, `1d`, `1w`, `1M` and their multiples.

use std::cmp::Ordering;
use std::str::FromStr;

use vstd::prelude::*;

use crate::text;

verus! {

/// A bar cadence: a count of minutes, hours, days, weeks or months.
#[derive(Clone, Copy, Debug, PartialEq, Eq, Structural, Hash)]
pub enum Frequency {
    Minute(u32),
    Hour(u32),
    Day(u32),
    Week(u32),
    Month(u32),
}

/// A cadence as the remote candle providers name it.
#[derive(Clone, Copy, Debug, PartialEq, Eq, Structural)]
pub enum Interval {
    Minute(u32),
    Hour(u32),
    Day(u32),
    Week(u32),
    Month(u32),
}

impl Frequency {
    /// How many units one bar spans.
    pub open spec fn count(self) -> u32 {
        match self {
            Frequency::Minute(n) => n,
            Frequency::Hour(n) => n,
            Frequency::Day(n) => n,
            Frequency::Week(n) => n,
            Frequency::Month(n) => n,
        }
    }

    /// The seconds of one unit; a month counts 30 days.
    pub open spec fn unit_seconds(self) -> nat {
        match self {
            Frequency::Minute(_) => 60,
            Frequency::Hour(_) => 3_600,
            Frequency::Day(_) => 86_400,
            Frequency::Week(_) => 604_800,
            Frequency::Month(_) => 2_592_000,
        }
    }

    /// The position of the unit among the five.
    pub open spec fn unit_index(self) -> nat {
        match self {
            Frequency::Minute(_) => 0,
            Frequency::Hour(_) => 1,
            Frequency::Day(_) => 2,
            Frequency::Week(_) => 3,
            Frequency::Month(_) => 4,
        }
    }

    /// The seconds that one bar spans.
    pub open spec fn seconds(self) -> nat {
        (self.count() as nat) * self.unit_seconds()
    }

    /// The letter of the unit.
    pub open spec fn letter(self) -> char {
        match self {
            Frequency::Minute(_) => 'm',
            Frequency::Hour(_) => 'h',
            Frequency::Day(_) => 'd',
            Frequency::Week(_) => 'w',
            Frequency::Month(_) => 'M',
        }
    }

    /// The canonical code: the count in decimal, then the unit's letter.
    pub open spec fn code(self) -> Seq<char> {
        text::decimal(self.count() as nat).push(self.letter())
    }

    /// Shorter bars come first; of two equally long cadences, the one in the
    /// smaller unit.
    pub open spec fn shorter(self, other: Frequency) -> bool {
        self.seconds() < other.seconds() || (self.seconds() == other.seconds() && self.unit_index()
            < other.unit_index())
    }

    /// The seconds that one bar spans.
    pub fn duration_seconds(self) -> (out: u64)
        ensures
            out == self.seconds(),
    {
        let (n, unit): (u32, u64) = match self {
            Frequency::Minute(n) => (n, 60),
            Frequency::Hour(n) => (n, 3_600),
            Frequency::Day(n) => (n, 86_400),
            Frequency::Week(n) => (n, 604_800),
            Frequency::Month(n) => (n, 2_592_000),
        };
        assert(n as int * unit as int <= 0xffff_ffff * 2_592_000) by (nonlinear_arith)
            requires
                n <= 0xffff_ffff,
                unit <= 2_592_000,
        ;
        (n as u64) * unit
    }

    fn index(self) -> (out: u64)
        ensures
            out == self.unit_index(),
    {
        match self {
            Frequency::Minute(_) => 0,
            Frequency::Hour(_) => 1,
            Frequency::Day(_) => 2,
            Frequency::Week(_) => 3,
            Frequency::Month(_) => 4,
        }
    }

    /// Whether `self` comes before `other`.
    pub fn comes_before(self, other: Frequency) -> (out: bool)
        ensures
            out == self.shorter(other),
    {
        let a: u64 = self.duration_seconds();
        let b: u64 = other.duration_seconds();
        a < b || (a == b && self.index() < other.index())
    }

    /// The canonical code of the cadence: `1m`, `4h`, `1d`, `1w`, `1M`.
    pub fn format(self) -> (out: String)
        ensures
            out@ == self.code(),
    {
        let (n, letter): (u32, char) = match self {
            Frequency::Minute(n) => (n, 'm'),
            Frequency::Hour(n) => (n, 'h'),
            Frequency::Day(n) => (n, 'd'),
            Frequency::Week(n) => (n, 'w'),
            Frequency::Month(n) => (n, 'M'),
        };
        let mut out: String = text::decimal_string(n as u64);
        out.push(letter);
        out
    }

    /// The cadence that `code` spells.
    pub fn parse(code: &str) -> (out: Result<Frequency, String>)
        ensures
            match out {
                Ok(f) => parsed_frequency(code@) == Some(f),
                Err(e) => parsed_frequency(code@) is None && e@ == frequency_complaint(code@),
            },
    {
        let trimmed = text::trim(code);
        let chars: Vec<char> = text::chars_of(trimmed);
        let n: usize = chars.len();
        if n > 0 {
            let head: String = text::string_between(&chars, 0, n - 1);
            assert(head@ == trimmed@.drop_last());
            let count: Option<u64> = text::parse_unsigned(&head, 0xffff_ffff);
            if let Some(count) = count {
                if count > 0 {
                    if let Some(f) = with_letter(count as u32, chars[n - 1]) {
                        return Ok(f);
                    }
                }
            }
        }
        let mut message: String = "bad frequency `".to_owned();
        message.append(trimmed);
        message.append("`: expected a positive count and one of `m`, `h`, `d`, `w`, `M`");
        Err(message)
    }
}

/// The cadence of `n` units of the unit with this letter.
pub open spec fn of_letter(n: u32, letter: char) -> Option<Frequency> {
    if letter == 'm' {
        Some(Frequency::Minute(n))
    } else if letter == 'h' {
        Some(Frequency::Hour(n))
    } else if letter == 'd' {
        Some(Frequency::Day(n))
    } else if letter == 'w' {
        Some(Frequency::Week(n))
    } else if letter == 'M' {
        Some(Frequency::Month(n))
    } else {
        None
    }
}

fn with_letter(n: u32, letter: char) -> (out: Option<Frequency>)
    ensures
        out == of_letter(n, letter),
{
    if letter == 'm' {
        Some(Frequency::Minute(n))
    } else if letter == 'h' {
        Some(Frequency::Hour(n))
    } else if letter == 'd' {
        Some(Frequency::Day(n))
    } else if letter == 'w' {
        Some(Frequency::Week(n))
    } else if letter == 'M' {
        Some(Frequency::Month(n))
    } else {
        None
    }
}

/// The cadence that a code spells: a positive count that fits in 32 bits, then
/// the letter of a unit. White space around the code does not count.
pub open spec fn parsed_frequency(code: Seq<char>) -> Option<Frequency> {
    let s = text::trimmed(code);
    if s.len() == 0 {
        None
    } else {
        match text::parsed_unsigned(s.drop_last(), 0xffff_ffff) {
            Some(n) => if n > 0 {
                of_letter(n as u32, s.last())
            } else {
                None
            },
            None => None,
        }
    }
}

/// What is said of a code that spells no cadence.
pub open spec fn frequency_complaint(code: Seq<char>) -> Seq<char> {
    "bad frequency `"@ + text::trimmed(code)
        + "`: expected a positive count and one of `m`, `h`, `d`, `w`, `M`"@
}

impl PartialOrd for Frequency {
    fn partial_cmp(&self, other: &Frequency) -> (out: Option<Ordering>) {
        if self.comes_before(*other) {
            Some(Ordering::Less)
        } else if other.comes_before(*self) {
            Some(Ordering::Greater)
        } else {
            Some(Ordering::Equal)
        }
    }
}

impl vstd::std_specs::cmp::PartialOrdSpecImpl for Frequency {
    open spec fn obeys_partial_cmp_spec() -> bool {
        true
    }

    open spec fn partial_cmp_spec(&self, other: &Frequency) -> Option<Ordering> {
        if self.shorter(*other) {
            Some(Ordering::Less)
        } else if other.shorter(*self) {
            Some(Ordering::Greater)
        } else {
            Some(Ordering::Equal)
        }
    }
}

impl FromStr for Frequency {
    type Err = String;

    fn from_str(s: &str) -> Result<Frequency, String> {
        Frequency::parse(s)
    }
}

/// Of two different cadences, one comes before the other.
pub proof fn shorter_is_total(a: Frequency, b: Frequency)
    ensures
        a == b || a.shorter(b) || b.shorter(a),
        !(a.shorter(b) && b.shorter(a)),
{
    if a.unit_index() == b.unit_index() && a.seconds() == b.seconds() {
        let unit = a.unit_seconds();
        assert(a.count() == b.count()) by (nonlinear_arith)
            requires
                a.count() as nat * unit == b.count() as nat * unit,
                unit > 0,
        ;
    }
}

/// The order of cadences is transitive.
pub proof fn shorter_is_transitive(a: Frequency, b: Frequency, c: Frequency)
    requires
        a.shorter(b),
        b.shorter(c),
    ensures
        a.shorter(c),
{
}

/// The canonical code of a cadence has no white space around it.
pub proof fn trimmed_of_code(f: Frequency)
    ensures
        text::trimmed(f.code()) == f.code(),
{
    text::decimal_reads_back(f.count() as nat);
    let code = f.code();
    let digits = text::decimal(f.count() as nat);
    assert(code[0] == digits[0]);
    assert(text::is_digit(digits[0]));
    assert(!text::is_space(code[0]));
    assert(text::trim_front(code) == code);
    assert(code.last() == f.letter());
    assert(!text::is_space(code.last()));
}

/// Reading the canonical code of a cadence back gives that cadence.
pub proof fn code_reads_back(f: Frequency)
    requires
        f.count() > 0,
    ensures
        parsed_frequency(f.code()) == Some(f),
{
    trimmed_of_code(f);
    let digits = text::decimal(f.count() as nat);
    assert(f.code().drop_last() =~= digits);
    text::parsed_unsigned_of_decimal(f.count() as nat, 0xffff_ffff);
}

/// Two cadences with the same code are the same.
pub proof fn codes_are_distinct(a: Frequency, b: Frequency)
    requires
        a.code() == b.code(),
    ensures
        a == b,
{
    let x = text::decimal(a.count() as nat);
    let y = text::decimal(b.count() as nat);
    assert(a.code().drop_last() =~= x);
    assert(b.code().drop_last() =~= y);
    assert(a.letter() == a.code().last());
    assert(b.letter() == b.code().last());
    text::decimal_reads_back(a.count() as nat);
    text::decimal_reads_back(b.count() as nat);
}

/// The interval that a token spells: an optional count that fits in 32 bits
/// (1 where it is missing) and is positive, then the letter of a unit.
pub open spec fn parsed_interval(token: Seq<char>) -> Option<Interval> {
    let s = text::trimmed(token);
    if s.len() == 0 {
        None
    } else {
        let count = if s.len() == 1 {
            Some(1nat)
        } else {
            text::parsed_unsigned(s.drop_last(), 0xffff_ffff)
        };
        match count {
            Some(n) => if n == 0 {
                None
            } else if s.last() == 'm' {
                Some(Interval::Minute(n as u32))
            } else if s.last() == 'h' {
                Some(Interval::Hour(n as u32))
            } else if s.last() == 'd' {
                Some(Interval::Day(n as u32))
            } else if s.last() == 'w' {
                Some(Interval::Week(n as u32))
            } else if s.last() == 'M' {
                Some(Interval::Month(n as u32))
            } else {
                None
            },
            None => None,
        }
    }
}

/// What is said of a token that spells no interval.
pub open spec fn interval_complaint(token: Seq<char>) -> Seq<char> {
    let s = text::trimmed(token);
    if s.len() == 0 {
        "empty interval token"@
    } else if s.len() > 1 && text::parsed_unsigned(s.drop_last(), 0xffff_ffff) is None {
        "bad interval "@ + text::debug_text(s)
    } else if s.len() > 1 && text::parsed_unsigned(s.drop_last(), 0xffff_ffff) == Some(0nat) {
        "interval "@ + text::debug_text(s) + ": multiplier must be positive"@
    } else {
        "interval "@ + text::debug_text(s) + ": unknown unit letter "@ + text::debug_text(
            seq![s.last()],
        )
    }
}

/// The interval that a token spells. The unit's letter is case-sensitive: `m`
/// is a minute, `M` a month.
pub fn parse_interval(token: &str) -> (out: Result<Interval, String>)
    ensures
        match out {
            Ok(i) => parsed_interval(token@) == Some(i),
            Err(e) => parsed_interval(token@) is None && e@ == interval_complaint(token@),
        },
{
    let s = text::trim(token);
    let chars: Vec<char> = text::chars_of(s);
    let n: usize = chars.len();
    if n == 0 {
        return Err("empty interval token".to_owned());
    }
    let head: String = text::string_between(&chars, 0, n - 1);
    assert(head@ == s@.drop_last());
    let count: u64 = if n == 1 {
        1
    } else {
        match text::parse_unsigned(&head, 0xffff_ffff) {
            Some(count) => count,
            None => {
                let mut message: String = "bad interval ".to_owned();
                message.append(&text::debug_quoted(s));
                return Err(message);
            },
        }
    };
    let mut message: String = "interval ".to_owned();
    message.append(&text::debug_quoted(s));
    if count == 0 {
        message.append(": multiplier must be positive");
        return Err(message);
    }
    let letter: char = chars[n - 1];
    let count: u32 = count as u32;
    if letter == 'm' {
        Ok(Interval::Minute(count))
    } else if letter == 'h' {
        Ok(Interval::Hour(count))
    } else if letter == 'd' {
        Ok(Interval::Day(count))
    } else if letter == 'w' {
        Ok(Interval::Week(count))
    } else if letter == 'M' {
        Ok(Interval::Month(count))
    } else {
        let unit: String = text::string_between(&chars, n - 1, n);
        assert(unit@ =~= seq![s@.last()]);
        message.append(": unknown unit letter ");
        message.append(&text::debug_quoted(&unit));
        Err(message)
    }
}

/// Whether no cadence in `v` comes before an earlier one.
pub open spec fn ascending(v: Seq<Frequency>) -> bool {
    forall|i: int, j: int| 0 <= i < j < v.len() ==> !(#[trigger] v[j]).shorter(#[trigger] v[i])
}

/// The cadences of `v` from the shortest to the longest.
pub fn sort_frequencies(v: Vec<Frequency>) -> (out: Vec<Frequency>)
    ensures
        out@.to_multiset() == v@.to_multiset(),
        ascending(out@),
{
    let mut out: Vec<Frequency> = Vec::new();
    let n: usize = v.len();
    assert(v@.take(0) =~= out@);
    for i in 0..n
        invariant
            n == v@.len(),
            out@.len() == i,
            out@.to_multiset() == v@.take(i as int).to_multiset(),
            ascending(out@),
    {
        let f: Frequency = v[i];
        let mut k: usize = out.len();
        while k > 0 && f.comes_before(out[k - 1])
            invariant
                k <= out@.len(),
                ascending(out@),
                forall|j: int| k <= j < out@.len() ==> f.shorter(#[trigger] out@[j]),
            decreases k,
        {
            k = k - 1;
        }
        let ghost before = out@;
        proof {
            assert forall|j: int| 0 <= j < k implies !f.shorter(#[trigger] before[j]) by {
                if f.shorter(before[j]) && j < k - 1 {
                    assert(!before[k - 1].shorter(before[j]));
                    shorter_is_total(before[k - 1], before[j]);
                    if before[j] != before[k - 1] {
                        shorter_is_transitive(f, before[j], before[k - 1]);
                    }
                }
            }
            assert forall|j: int| k <= j < before.len() implies !(#[trigger] before[j]).shorter(
                f,
            ) by {
                shorter_is_total(before[j], f);
            }
        }
        out.insert(k, f);
        proof {
            broadcast use vstd::seq_lib::group_to_multiset_ensures;

            assert(out@ =~= before.insert(k as int, f));
            assert(v@.take(i + 1) =~= v@.take(i as int).push(f));
            assert forall|a: int, b: int| 0 <= a < b < out@.len() implies !(
            #[trigger] out@[b]).shorter(#[trigger] out@[a]) by {
                let a0 = if a < k { a } else { a - 1 };
                let b0 = if b < k { b } else { b - 1 };
                if a == k || b == k {
                } else {
                    assert(!before[b0].shorter(before[a0]));
                }
            }
        }
    }
    assert(v@.take(n as int) =~= v@);
    out
}

/// An hour is sixty minutes, a day 24 hours, a week seven days and a month 30 days:
/// cadences that say the same last the same, and the one in the smaller unit comes
/// first.
pub proof fn units_nest(n: u32)
    requires
        0 < n <= u32::MAX / 60,
    ensures
        Frequency::Minute((60 * n) as u32).seconds() == Frequency::Hour(n).seconds(),
        Frequency::Hour((24 * n) as u32).seconds() == Frequency::Day(n).seconds(),
        Frequency::Day((7 * n) as u32).seconds() == Frequency::Week(n).seconds(),
        Frequency::Day((30 * n) as u32).seconds() == Frequency::Month(n).seconds(),
        Frequency::Minute(n).seconds() == 60 * n,
        Frequency::Minute((60 * n) as u32).shorter(Frequency::Hour(n)),
        Frequency::Hour((24 * n) as u32).shorter(Frequency::Day(n)),
        Frequency::Day((7 * n) as u32).shorter(Frequency::Week(n)),
        Frequency::Day((30 * n) as u32).shorter(Frequency::Month(n)),
{
    assert(((60 * n) as u32) as int == 60 * n);
    assert(((24 * n) as u32) as int == 24 * n);
    assert(((7 * n) as u32) as int == 7 * n);
    assert(((30 * n) as u32) as int == 30 * n);
    assert(Frequency::Hour((24 * n) as u32).count() == 24 * n);
    assert((24 * n) * 3_600 == n * 86_400) by (nonlinear_arith);
    assert((7 * n) * 86_400 == n * 604_800) by (nonlinear_arith);
    assert((30 * n) * 86_400 == n * 2_592_000) by (nonlinear_arith);
}

/// The shorter of two cadences that do not last the same comes first.
pub proof fn order_is_by_length(a: Frequency, b: Frequency)
    ensures
        a.seconds() < b.seconds() ==> a.shorter(b) && !b.shorter(a),
        a.shorter(b) ==> a.seconds() <= b.seconds(),
{
}

/// A code is the count in decimal and the letter of the unit: `m` for minutes, `h`
/// for hours, `d` for days, `w` for weeks, `M` for months.
pub proof fn codes_name_their_units(n: u32)
    ensures
        Frequency::Minute(n).code() == text::decimal(n as nat) + seq!['m'],
        Frequency::Hour(n).code() == text::decimal(n as nat) + seq!['h'],
        Frequency::Day(n).code() == text::decimal(n as nat) + seq!['d'],
        Frequency::Week(n).code() == text::decimal(n as nat) + seq!['w'],
        Frequency::Month(n).code() == text::decimal(n as nat) + seq!['M'],
        text::digits_value(text::decimal(n as nat)) == n,
        text::all_digits(text::decimal(n as nat)),
{
    text::decimal_reads_back(n as nat);
    let d = text::decimal(n as nat);
    assert(d.push('m') =~= d + seq!['m']);
    assert(d.push('h') =~= d + seq!['h']);
    assert(d.push('d') =~= d + seq!['d']);
    assert(d.push('w') =~= d + seq!['w']);
    assert(d.push('M') =~= d + seq!['M']);
}

/// A code spells a cadence only where it ends in the letter of its unit, behind a
/// count above zero. White space around it says nothing.
pub proof fn a_code_ends_in_its_unit(code: Seq<char>)
    ensures
        parsed_frequency(code) matches Some(f) ==> f.count() > 0 && text::trimmed(code).len() > 0
            && text::trimmed(code).last() == (match f {
            Frequency::Minute(_) => 'm',
            Frequency::Hour(_) => 'h',
            Frequency::Day(_) => 'd',
            Frequency::Week(_) => 'w',
            Frequency::Month(_) => 'M',
        }) && text::parsed_unsigned(text::trimmed(code).drop_last(), u32::MAX as nat) == Some(
            f.count() as nat,
        ),
{
}

} // verus!
