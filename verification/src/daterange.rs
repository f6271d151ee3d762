//! Which bars a run evaluates: the range from `--from` up to `--until`.
//!
//! The range is half-open, so two adjacent ranges share no bar and miss none.
//! `--from` bounds what is evaluated, not what is read: the bars before it are
//! fed to settle the strategy, as many as it needs, unless the range is strict.

use vstd::prelude::*;

use crate::calendar::parse_time_to_millis;
use crate::calendar;
use crate::text;

verus! {

/// A range of times in milliseconds.
#[derive(Debug, Clone, Copy, PartialEq, Eq, Structural)]
pub struct DateRange {
    /// The first time that is in the range.
    pub from: Option<i64>,
    /// The first time after the range.
    pub until: Option<i64>,
    /// Whether nothing before the range is read.
    pub strict: bool,
}

/// Where a range lies in a stream of bars: `[warm_start, eval_start)` is fed but
/// not measured, `[eval_start, end)` is evaluated.
#[derive(Debug, Clone, Copy, PartialEq, Eq, Structural)]
pub struct Slice {
    pub warm_start: usize,
    pub eval_start: usize,
    pub end: usize,
    /// Where `--from` asked evaluation to begin: as many bars precede it.
    pub requested: usize,
}

impl Slice {
    /// Whether the places are in order.
    pub open spec fn wf(self) -> bool {
        self.warm_start <= self.eval_start <= self.end && self.requested < self.end
    }

    /// The whole of a stream of `n` bars.
    pub fn everything(n: usize) -> (out: Slice)
        ensures
            out == (Slice { warm_start: 0, eval_start: 0, end: n, requested: 0 }),
    {
        Slice { warm_start: 0, eval_start: 0, end: n, requested: 0 }
    }

    /// The bars that are fed but not measured.
    pub fn warmup_bars(&self) -> (out: usize)
        requires
            self.warm_start <= self.eval_start,
        ensures
            out == self.eval_start - self.warm_start,
    {
        self.eval_start - self.warm_start
    }

    /// Whether the slice is the whole of a stream of `n` bars.
    pub fn is_everything(&self, n: usize) -> (out: bool)
        ensures
            out == (self.warm_start == 0 && self.eval_start == 0 && self.end == n),
    {
        self.warm_start == 0 && self.eval_start == 0 && self.end == n
    }

    /// The bars that are fed: the first one, and the one after the last.
    pub fn fed(&self) -> (out: (usize, usize))
        ensures
            out == (self.warm_start, self.end),
    {
        (self.warm_start, self.end)
    }
}

/// What is said of a bound that is no date.
pub open spec fn bound_complaint(flag: Seq<char>, raw: Seq<char>) -> Seq<char> {
    "`"@ + flag + " "@ + raw
        + "` is not a date — expected `YYYY-MM-DD`, `YYYY-MM-DD HH:MM:SS`, or an RFC 3339 timestamp"@
}

/// A bound in milliseconds, given what it reads as; or what is said of it.
pub open spec fn bound_of(flag: Seq<char>, raw: Option<Seq<char>>, millis: Option<int>) -> Result<
    Option<i64>,
    Seq<char>,
> {
    match raw {
        None => Ok(None),
        Some(s) => match millis {
            Some(ms) => Ok(Some(ms as i64)),
            None => Err(bound_complaint(flag, s)),
        },
    }
}

/// The text of an optional argument.
pub open spec fn arg(raw: Option<&str>) -> Option<Seq<char>> {
    match raw {
        Some(s) => Some(s@),
        None => None,
    }
}

/// What an optional argument reads as.
pub open spec fn arg_millis(raw: Option<&str>) -> Option<int> {
    match raw {
        Some(s) => calendar::parsed_millis(s@),
        None => None,
    }
}

/// The range of two bounds, each given with what it reads as; none where there
/// is no bound; or what is said of them. A strict range needs its first bound,
/// whatever the other is.
pub open spec fn range_of(
    from: Option<Seq<char>>,
    from_millis: Option<int>,
    until: Option<Seq<char>>,
    until_millis: Option<int>,
    strict: bool,
) -> Result<Option<DateRange>, Seq<char>> {
    let f = bound_of("--from"@, from, from_millis);
    let u = bound_of("--until"@, until, until_millis);
    if strict && from is None {
        Err("`--strict-from` needs `--from` — there is no boundary for it to be strict about"@)
    } else if from is None && until is None {
        Ok(None)
    } else if f is Err {
        Err(f->Err_0)
    } else if u is Err {
        Err(u->Err_0)
    } else if f->Ok_0 is Some && u->Ok_0 is Some && u->Ok_0->0 <= f->Ok_0->0 {
        Err(
            "`--until` must be strictly after `--from` — the range is half-open `[from, until)`, so an equal pair selects no bars"@,
        )
    } else {
        Ok(Some(DateRange { from: f->Ok_0, until: u->Ok_0, strict }))
    }
}

fn parse_bound(flag: &str, raw: Option<&str>, millis: Option<i64>) -> (out: Result<
    Option<i64>,
    String,
>)
    ensures
        match (
            out,
            bound_of(
                flag@,
                arg(raw),
                match millis {
                    Some(v) => Some(v as int),
                    None => None,
                },
            ),
        ) {
            (Ok(v), Ok(m)) => v == m,
            (Err(e), Err(m)) => e@ == m,
            _ => false,
        },
{
    match raw {
        None => Ok(None),
        Some(s) => match millis {
            Some(ms) => Ok(Some(ms)),
            None => {
                let mut message: String = "`".to_owned();
                message.append(flag);
                message.append(" ");
                message.append(s);
                message.append(
                    "` is not a date — expected `YYYY-MM-DD`, `YYYY-MM-DD HH:MM:SS`, or an RFC 3339 timestamp",
                );
                Err(message)
            },
        },
    }
}

/// The first bars of a stream that lie before `t`, each given by the time it
/// spells: how many there are up to the first one that does not. A bar that
/// spells no time does not.
pub open spec fn leading(stamps: Seq<Option<i64>>, t: i64) -> int
    decreases stamps.len(),
{
    if stamps.len() > 0 && stamps[0] is Some && stamps[0]->0 < t {
        1 + leading(stamps.skip(1), t)
    } else {
        0
    }
}

/// The times that labels spell.
pub open spec fn stamps_of(bars: Seq<Seq<char>>) -> Seq<Option<i64>> {
    Seq::new(
        bars.len(),
        |i: int|
            match calendar::parsed_millis(bars[i]) {
                Some(ms) => Some(ms as i64),
                None => None,
            },
    )
}

/// `n` of a unit, in words.
pub open spec fn counted(n: nat, unit: Seq<char>) -> Seq<char> {
    if n == 1 {
        text::decimal(n) + " "@ + unit
    } else {
        text::decimal(n) + " "@ + unit + "s"@
    }
}

/// The first and the last label of a stream.
pub open spec fn span(bars: Seq<Seq<char>>) -> Seq<char> {
    if bars.len() == 0 {
        "empty"@
    } else {
        bars[0] + " → "@ + bars.last()
    }
}

/// Where a range lies in a stream of bars, each given by the time it spells, when
/// the strategy needs `need` bars to settle; none where it holds no bar.
pub open spec fn slice_of(range: DateRange, stamps: Seq<Option<i64>>, need: int) -> Option<Slice> {
    let requested = match range.from {
        Some(t) => leading(stamps, t),
        None => 0,
    };
    let end = match range.until {
        Some(t) => leading(stamps, t),
        None => stamps.len() as int,
    };
    let later = if requested >= need {
        requested
    } else {
        need
    };
    let eval_start = if later <= end {
        later
    } else {
        end
    };
    if requested >= end {
        None
    } else if range.strict || range.from is None {
        Some(
            Slice {
                warm_start: requested as usize,
                eval_start: requested as usize,
                end: end as usize,
                requested: requested as usize,
            },
        )
    } else {
        Some(
            Slice {
                warm_start: (if eval_start >= need {
                    eval_start - need
                } else {
                    0
                }) as usize,
                eval_start: eval_start as usize,
                end: end as usize,
                requested: requested as usize,
            },
        )
    }
}

/// What is said of a range without bars.
pub open spec fn empty_complaint(bars: Seq<Seq<char>>) -> Seq<char> {
    "`--from`/`--until` select no bars of the "@ + counted(bars.len(), "bar"@)
        + " the input carries ("@ + span(bars) + ") — check the range against the series"@
}

/// `leading` counts bars of the stream that lie before `t`, and stops at the
/// first one that does not.
pub proof fn leading_is_a_prefix(stamps: Seq<Option<i64>>, t: i64)
    ensures
        0 <= leading(stamps, t) <= stamps.len(),
        forall|i: int|
            0 <= i < leading(stamps, t) ==> (#[trigger] stamps[i]) is Some && stamps[i]->0 < t,
        leading(stamps, t) < stamps.len() ==> !(stamps[leading(stamps, t)] is Some
            && stamps[leading(stamps, t)]->0 < t),
    decreases stamps.len(),
{
    if stamps.len() > 0 && stamps[0] is Some && stamps[0]->0 < t {
        leading_is_a_prefix(stamps.skip(1), t);
        assert forall|i: int| 0 <= i < leading(stamps, t) implies (#[trigger] stamps[i]) is Some
            && stamps[i]->0 < t by {
            if i > 0 {
                assert(stamps.skip(1)[i - 1] == stamps[i]);
            }
        }
    }
}

fn count_leading(stamps: &[Option<i64>], t: i64) -> (out: usize)
    ensures
        out == leading(stamps@, t),
        out <= stamps@.len(),
{
    let n: usize = stamps.len();
    let mut i: usize = 0;
    assert(stamps@.skip(0) =~= stamps@);
    while i < n
        invariant
            n == stamps@.len(),
            i <= n,
            leading(stamps@, t) == i + leading(stamps@.skip(i as int), t),
        decreases n - i,
    {
        let before: bool = match stamps[i] {
            Some(ms) => ms < t,
            None => false,
        };
        if !before {
            return i;
        }
        assert(stamps@.skip(i as int).skip(1) =~= stamps@.skip(i + 1));
        i = i + 1;
    }
    i
}

fn plural(n: usize, unit: &str) -> (out: String)
    ensures
        out@ == counted(n as nat, unit@),
{
    let mut out: String = text::decimal_string(n as u64);
    out.append(" ");
    out.append(unit);
    if n != 1 {
        out.append("s");
    }
    out
}

fn span_of(bars: &[String]) -> (out: String)
    ensures
        out@ == span(text::texts(bars@)),
{
    let n: usize = bars.len();
    if n == 0 {
        return "empty".to_owned();
    }
    let mut out: String = bars[0].clone();
    out.append(" → ");
    out.append(&bars[n - 1]);
    out
}

impl DateRange {
    /// Whether two bounds, where there are two, are in order.
    pub open spec fn wf(self) -> bool {
        self.from is Some && self.until is Some ==> self.from->0 < self.until->0
    }

    /// The range of two bounds, given what each reads as.
    pub fn from_millis(
        from: Option<&str>,
        from_millis: Option<i64>,
        until: Option<&str>,
        until_millis: Option<i64>,
        strict: bool,
    ) -> (out: Result<Option<DateRange>, String>)
        ensures
            match (
                out,
                range_of(
                    arg(from),
                    match from_millis {
                        Some(v) => Some(v as int),
                        None => None,
                    },
                    arg(until),
                    match until_millis {
                        Some(v) => Some(v as int),
                        None => None,
                    },
                    strict,
                ),
            ) {
                (Ok(r), Ok(m)) => r == m && (r matches Some(x) ==> x.wf()),
                (Err(e), Err(m)) => e@ == m,
                _ => false,
            },
    {
        if strict && from.is_none() {
            return Err(
                "`--strict-from` needs `--from` — there is no boundary for it to be strict about".to_owned(),
            );
        }
        if from.is_none() && until.is_none() {
            return Ok(None);
        }
        let from: Option<i64> = match parse_bound("--from", from, from_millis) {
            Ok(v) => v,
            Err(e) => return Err(e),
        };
        let until: Option<i64> = match parse_bound("--until", until, until_millis) {
            Ok(v) => v,
            Err(e) => return Err(e),
        };
        if let (Some(f), Some(u)) = (from, until) {
            if u <= f {
                return Err(
                    "`--until` must be strictly after `--from` — the range is half-open `[from, until)`, so an equal pair selects no bars".to_owned(),
                );
            }
        }
        Ok(Some(DateRange { from, until, strict }))
    }

    /// The range of the three flags; none where neither bound is given. A strict
    /// range without a first bound is refused.
    pub fn parse(from: Option<&str>, until: Option<&str>, strict: bool) -> (out: Result<
        Option<DateRange>,
        String,
    >)
        ensures
            match (out, range_of(arg(from), arg_millis(from), arg(until), arg_millis(until), strict)) {
                (Ok(r), Ok(m)) => r == m && (r matches Some(x) ==> x.wf()),
                (Err(e), Err(m)) => e@ == m,
                _ => false,
            },
    {
        let from_millis: Option<i64> = match from {
            Some(s) => parse_time_to_millis(s),
            None => None,
        };
        let until_millis: Option<i64> = match until {
            Some(s) => parse_time_to_millis(s),
            None => None,
        };
        DateRange::from_millis(from, from_millis, until, until_millis, strict)
    }

    /// Whether bars before the range are read to settle the strategy.
    pub fn reads_back(&self) -> (out: bool)
        ensures
            out == (self.from is Some && !self.strict),
    {
        self.from.is_some() && !self.strict
    }

    /// Where the range lies in a stream of bars, given the times that they spell.
    pub fn locate(&self, stamps: &[Option<i64>], warmup_need: usize) -> (out: Option<Slice>)
        ensures
            out == slice_of(*self, stamps@, warmup_need as int),
            out matches Some(s) ==> s.wf() && s.end <= stamps@.len(),
    {
        let requested: usize = match self.from {
            Some(t) => count_leading(stamps, t),
            None => 0,
        };
        let end: usize = match self.until {
            Some(t) => count_leading(stamps, t),
            None => stamps.len(),
        };
        if requested >= end {
            return None;
        }
        if self.strict || self.from.is_none() {
            return Some(Slice { warm_start: requested, eval_start: requested, end, requested });
        }
        let later: usize = if requested >= warmup_need {
            requested
        } else {
            warmup_need
        };
        let eval_start: usize = if later <= end {
            later
        } else {
            end
        };
        let warm_start: usize = if eval_start >= warmup_need {
            eval_start - warmup_need
        } else {
            0
        };
        Some(Slice { warm_start, eval_start, end, requested })
    }

    /// Where the range lies in a stream of bars, given by their labels in
    /// ascending order of time, when the strategy needs `warmup_need` bars to
    /// settle. A range without bars is an error.
    pub fn resolve(&self, bars: &[String], warmup_need: usize) -> (out: Result<Slice, String>)
        ensures
            match slice_of(*self, stamps_of(text::texts(bars@)), warmup_need as int) {
                Some(s) => out == Ok::<Slice, String>(s) && s.wf() && s.end <= bars@.len(),
                None => out matches Err(e) && e@ == empty_complaint(text::texts(bars@)),
            },
    {
        let mut stamps: Vec<Option<i64>> = Vec::new();
        let n: usize = bars.len();
        for i in 0..n
            invariant
                n == bars@.len(),
                stamps@.len() == i,
                forall|k: int|
                    0 <= k < i ==> #[trigger] stamps@[k] == stamps_of(text::texts(bars@))[k],
        {
            stamps.push(parse_time_to_millis(&bars[i]));
        }
        assert(stamps@ =~= stamps_of(text::texts(bars@)));
        match self.locate(&stamps, warmup_need) {
            Some(s) => Ok(s),
            None => {
                let mut message: String = "`--from`/`--until` select no bars of the ".to_owned();
                message.append(&plural(n, "bar"));
                message.append(" the input carries (");
                message.append(&span_of(bars));
                message.append(") — check the range against the series");
                Err(message)
            },
        }
    }
}

/// What is said of a run whose evaluation starts later than it was asked to,
/// since too few bars precede it; nothing where it does not. Where the start lies
/// behind the last bar, there is none to name.
pub open spec fn late_start(
    slice: Slice,
    bars: Seq<Seq<char>>,
    requested: Seq<char>,
    need: nat,
) -> Option<Seq<char>> {
    if slice.eval_start <= slice.requested {
        None
    } else {
        Some(
            "only "@ + counted(slice.requested as nat, "bar"@) + " precede `--from "@ + requested
                + "`, but "@ + counted(need, "bar"@) + " are needed to settle this strategy; "@ + (
            if slice.eval_start < bars.len() {
                "evaluation starts "@ + bars[slice.eval_start as int] + " instead"@
            } else {
                "no bar is left to evaluate"@
            }),
        )
    }
}

/// What is said of a run whose evaluation starts later than it was asked to.
pub fn short_warmup_warning(
    slice: &Slice,
    bars: &[String],
    requested_label: &str,
    warmup_need: usize,
) -> (out: Option<String>)
    ensures
        out is Some <==> slice.eval_start > slice.requested,
        calendar::text_of(out) == late_start(
            *slice,
            text::texts(bars@),
            requested_label@,
            warmup_need as nat,
        ),
{
    if slice.eval_start <= slice.requested {
        return None;
    }
    let mut out: String = "only ".to_owned();
    out.append(&plural(slice.requested, "bar"));
    out.append(" precede `--from ");
    out.append(requested_label);
    out.append("`, but ");
    out.append(&plural(warmup_need, "bar"));
    out.append(" are needed to settle this strategy; ");
    let ghost start = out@;
    if slice.eval_start < bars.len() {
        out.append("evaluation starts ");
        out.append(&bars[slice.eval_start]);
        out.append(" instead");
        assert(out@ =~= start + ("evaluation starts "@ + bars@[slice.eval_start as int]@
            + " instead"@));
    } else {
        out.append("no bar is left to evaluate");
    }
    Some(out)
}

// ---------------------------------------------------------------------------
// Laws
// ---------------------------------------------------------------------------

/// A range up to `t` and a strict range from `t` on share no bar and miss none:
/// where both hold bars, the first ends where the second begins, the first
/// begins at the first bar and the second ends behind the last.
pub proof fn adjacent_ranges_tile(stamps: Seq<Option<i64>>, t: i64, need: int)
    requires
        stamps.len() <= usize::MAX,
    ensures
        ({
            let first = slice_of(
                DateRange { from: None, until: Some(t), strict: false },
                stamps,
                need,
            );
            let second = slice_of(
                DateRange { from: Some(t), until: None, strict: true },
                stamps,
                need,
            );
            &&& first is Some && second is Some ==> first->0.eval_start == 0 && first->0.end
                == second->0.eval_start && second->0.end == stamps.len()
            &&& first is None ==> second is Some && second->0.eval_start == 0 || stamps.len() == 0
            &&& second is None ==> first is Some && first->0.end == stamps.len() || stamps.len()
                == 0
        }),
{
    leading_is_a_prefix(stamps, t);
}

/// The same holds of three adjacent ranges: the middle one begins where the
/// first ends and ends where the last begins.
pub proof fn inner_ranges_tile(stamps: Seq<Option<i64>>, a: i64, b: i64, c: i64, need: int)
    requires
        stamps.len() <= usize::MAX,
        a < b < c,
    ensures
        ({
            let first = slice_of(
                DateRange { from: Some(a), until: Some(b), strict: true },
                stamps,
                need,
            );
            let second = slice_of(
                DateRange { from: Some(b), until: Some(c), strict: true },
                stamps,
                need,
            );
            first is Some && second is Some ==> first->0.end == second->0.eval_start
        }),
{
    leading_is_a_prefix(stamps, b);
}

/// Every bar that a range evaluates lies in it, where the bars ascend and each
/// spells a time.
pub proof fn evaluated_bars_lie_in_range(
    range: DateRange,
    stamps: Seq<Option<i64>>,
    need: nat,
    i: int,
)
    requires
        stamps.len() <= usize::MAX,
        forall|k: int| 0 <= k < stamps.len() ==> (#[trigger] stamps[k]) is Some,
        forall|j: int, k: int|
            0 <= j <= k < stamps.len() ==> (#[trigger] stamps[j])->0 <= (#[trigger] stamps[k])->0,
        slice_of(range, stamps, need as int) is Some,
        slice_of(range, stamps, need as int)->0.eval_start <= i < slice_of(
            range,
            stamps,
            need as int,
        )->0.end,
    ensures
        range.from is Some ==> range.from->0 <= stamps[i]->0,
        range.until is Some ==> stamps[i]->0 < range.until->0,
{
    if let Some(t) = range.until {
        leading_is_a_prefix(stamps, t);
        if let Some(f) = range.from {
            leading_is_a_prefix(stamps, f);
        }
        assert(stamps[i] is Some && stamps[i]->0 < t);
    }
    if let Some(t) = range.from {
        leading_is_a_prefix(stamps, t);
        let k = leading(stamps, t);
        assert(stamps[k] is Some);
        assert(stamps[k]->0 <= stamps[i]->0);
    }
}

/// A range that is not strict feeds just the bars that the strategy needs before
/// the first one it evaluates, and starts late rather than unsettled.
pub proof fn warm_up_is_just_enough(range: DateRange, stamps: Seq<Option<i64>>, need: nat)
    requires
        stamps.len() <= usize::MAX,
        range.from is Some,
        !range.strict,
        slice_of(range, stamps, need as int) is Some,
    ensures
        ({
            let s = slice_of(range, stamps, need as int)->0;
            &&& s.eval_start >= s.requested
            &&& s.eval_start < s.end ==> s.eval_start - s.warm_start == need
            &&& s.eval_start == s.requested <==> s.requested >= need
        }),
{
    leading_is_a_prefix(stamps, range.from->0);
    if let Some(t) = range.until {
        leading_is_a_prefix(stamps, t);
    }
}

/// Where the bars ascend and each spells a time, a strict range evaluates all bars
/// from its beginning on that lie before its end, and no others.
pub proof fn a_strict_range_evaluates_what_lies_in_it(
    range: DateRange,
    stamps: Seq<Option<i64>>,
    need: nat,
    i: int,
)
    requires
        stamps.len() <= usize::MAX,
        forall|k: int| 0 <= k < stamps.len() ==> (#[trigger] stamps[k]) is Some,
        forall|j: int, k: int|
            0 <= j <= k < stamps.len() ==> (#[trigger] stamps[j])->0 <= (#[trigger] stamps[k])->0,
        range.strict || range.from is None,
        0 <= i < stamps.len(),
    ensures
        ((range.from matches Some(t) ==> t <= stamps[i]->0) && (range.until matches Some(t)
            ==> stamps[i]->0 < t)) <==> (slice_of(range, stamps, need as int) matches Some(s)
            && s.eval_start <= i < s.end),
        slice_of(range, stamps, need as int) matches Some(s) ==> s.warm_start == s.eval_start
            && s.requested == s.eval_start,
{
    if let Some(t) = range.from {
        leading_is_a_prefix(stamps, t);
        let k = leading(stamps, t);
        if k < stamps.len() {
            assert(stamps[k] is Some);
            if i >= k {
                assert(stamps[k]->0 <= stamps[i]->0);
            }
        }
        if i < k {
            assert(stamps[i] is Some && stamps[i]->0 < t);
        }
    }
    if let Some(t) = range.until {
        leading_is_a_prefix(stamps, t);
        let k = leading(stamps, t);
        if k < stamps.len() {
            assert(stamps[k] is Some);
            if i >= k {
                assert(stamps[k]->0 <= stamps[i]->0);
            }
        }
        if i < k {
            assert(stamps[i] is Some && stamps[i]->0 < t);
        }
    }
}

/// A range that is not strict is asked for the same bars as a strict one, and ends
/// where it ends; of those it evaluates the ones that leave enough bars before them.
pub proof fn reading_back_keeps_the_end(
    from: i64,
    until: Option<i64>,
    stamps: Seq<Option<i64>>,
    need: nat,
)
    requires
        stamps.len() <= usize::MAX,
    ensures
        ({
            let strict = slice_of(
                DateRange { from: Some(from), until, strict: true },
                stamps,
                need as int,
            );
            let lenient = slice_of(
                DateRange { from: Some(from), until, strict: false },
                stamps,
                need as int,
            );
            &&& strict is Some <==> lenient is Some
            &&& strict is Some ==> {
                let s = strict->0;
                let l = lenient->0;
                &&& l.end == s.end && l.requested == s.requested
                &&& l.warm_start <= s.warm_start
                &&& need == 0 ==> l == s
                &&& l.eval_start == s.eval_start || l.warm_start == 0
            }
        }),
{
    leading_is_a_prefix(stamps, from);
    if let Some(t) = until {
        leading_is_a_prefix(stamps, t);
    }
}

/// A range begins at the time of `--from` and ends at that of `--until`, each open
/// where it is not given; it ends after it begins. Without either there is no range.
pub proof fn a_range_has_its_bounds(
    from: Option<Seq<char>>,
    from_millis: Option<int>,
    until: Option<Seq<char>>,
    until_millis: Option<int>,
    strict: bool,
)
    requires
        from_millis matches Some(v) ==> i64::MIN <= v <= i64::MAX,
        until_millis matches Some(v) ==> i64::MIN <= v <= i64::MAX,
    ensures
        ({
            let out = range_of(from, from_millis, until, until_millis, strict);
            &&& out matches Ok(Some(r)) ==> {
                &&& from is Some <==> r.from is Some
                &&& until is Some <==> r.until is Some
                &&& from is Some ==> from_millis == Some(r.from->0 as int)
                &&& until is Some ==> until_millis == Some(r.until->0 as int)
                &&& r.strict == strict
                &&& r.from is Some && r.until is Some ==> r.from->0 < r.until->0
                &&& strict ==> from is Some
            }
            &&& out == Ok::<Option<DateRange>, Seq<char>>(None) <==> from is None && until is None
                && !strict
            &&& out is Err <==> (strict && from is None) || (from is Some && from_millis is None)
                || (until is Some && until_millis is None) || (from is Some && until is Some
                && until_millis->0 <= from_millis->0)
        }),
{
}

} // verus!
