//! Lines for the console. A value that a run does not have is shown as a dash;
//! numbers come as they are written.

use vstd::prelude::*;

use crate::frequency::Frequency;
use crate::text;

verus! {

/// How a missing value is shown.
pub open spec fn dash() -> Seq<char> {
    "—"@
}

/// The text of an optional string.
pub open spec fn text_or_dash(v: Option<&str>, suffix: Seq<char>) -> Seq<char> {
    match v {
        Some(s) => s@ + suffix,
        None => dash(),
    }
}

/// A ratio, or a dash.
pub fn format_ratio(v: Option<&str>) -> (out: String)
    ensures
        out@ == text_or_dash(v, seq![]),
{
    match v {
        Some(s) => {
            assert(s@ + Seq::<char>::empty() =~= s@);
            s.to_owned()
        },
        None => "—".to_owned(),
    }
}

/// A percentage, or a dash.
pub fn format_pct(v: Option<&str>) -> (out: String)
    ensures
        out@ == text_or_dash(v, "%"@),
{
    match v {
        Some(s) => {
            let mut out: String = s.to_owned();
            out.append("%");
            out
        },
        None => "—".to_owned(),
    }
}

/// A mean and its deviation with a unit behind them, or a dash.
pub open spec fn mean_text(pair: Option<(&str, &str)>, unit: Seq<char>) -> Seq<char> {
    match pair {
        Some((m, s)) => m@ + " ± "@ + s@ + unit,
        None => dash(),
    }
}

fn mean_line(pair: Option<(&str, &str)>, unit: &str) -> (out: String)
    ensures
        out@ == mean_text(pair, unit@),
{
    match pair {
        Some((m, s)) => {
            let mut out: String = m.to_owned();
            out.append(" ± ");
            out.append(s);
            out.append(unit);
            out
        },
        None => "—".to_owned(),
    }
}

/// A mean with its sign and its deviation in percent, or a dash.
pub fn format_ms_signed_pct(pair: Option<(&str, &str)>) -> (out: String)
    ensures
        out@ == mean_text(pair, "%"@),
{
    mean_line(pair, "%")
}

/// A mean without a sign and its deviation in percent, or a dash.
pub fn format_ms_unsigned_pct(pair: Option<(&str, &str)>) -> (out: String)
    ensures
        out@ == mean_text(pair, "%"@),
{
    mean_line(pair, "%")
}

/// A mean and its deviation, or a dash.
pub fn format_ms_ratio(pair: Option<(&str, &str)>) -> (out: String)
    ensures
        out@ == mean_text(pair, ""@),
{
    mean_line(pair, "")
}

/// A mean count and its deviation, or a dash.
pub fn format_ms_count(pair: Option<(&str, &str)>) -> (out: String)
    ensures
        out@ == mean_text(pair, ""@),
{
    mean_line(pair, "")
}

/// A mean and its deviation over the members of a panel that have one, or a dash.
pub fn format_pooled(pooled: Option<(&str, &str)>, defined: u64, members: u64) -> (out: String)
    ensures
        out@ == (match pooled {
            Some((m, s)) => m@ + " ± "@ + s@ + " ("@ + text::decimal(defined as nat) + "/"@
                + text::decimal(members as nat) + ")"@,
            None => dash(),
        }),
{
    match pooled {
        Some((m, s)) => {
            let mut out: String = m.to_owned();
            out.append(" ± ");
            out.append(s);
            out.append(" (");
            out.append(&text::decimal_string(defined));
            out.append("/");
            out.append(&text::decimal_string(members));
            out.append(")");
            out
        },
        None => "—".to_owned(),
    }
}

/// How many units of its cadence a bar lasts, and the unit's letter.
pub fn cadence_unit(freq: Frequency) -> (out: (u32, char))
    ensures
        out.0 == freq.count(),
        out.1 == freq.letter(),
{
    match freq {
        Frequency::Minute(n) => (n, 'm'),
        Frequency::Hour(n) => (n, 'h'),
        Frequency::Day(n) => (n, 'd'),
        Frequency::Week(n) => (n, 'w'),
        Frequency::Month(n) => (n, 'M'),
    }
}

/// A number of a cadence's units, with the unit's letter.
pub fn format_bars_as_duration(units: &str, freq: Frequency) -> (out: String)
    ensures
        out@ == units@.push(freq.letter()),
{
    let mut out: String = units.to_owned();
    let (_, letter): (u32, char) = cadence_unit(freq);
    out.push(letter);
    out
}

/// A number of bars, with its duration where the cadence is known.
pub open spec fn bars_text(bars: Seq<char>, duration: Option<Seq<char>>) -> Seq<char> {
    bars + " bars"@ + (match duration {
        Some(d) => " (~"@ + d + ")"@,
        None => seq![],
    })
}

/// A number of bars, with its duration where the cadence is known.
pub fn bars_line(bars: &str, duration: Option<&str>) -> (out: String)
    ensures
        out@ == bars_text(
            bars@,
            match duration {
                Some(d) => Some(d@),
                None => None,
            },
        ),
{
    let mut out: String = bars.to_owned();
    out.append(" bars");
    let ghost before = out@;
    match duration {
        Some(d) => {
            out.append(" (~");
            out.append(d);
            out.append(")");
            assert(out@ =~= before + (" (~"@ + d@ + ")"@));
        },
        None => {
            assert(out@ =~= before + Seq::<char>::empty());
        },
    }
    out
}

/// One part of the line on holding times, where there is one.
pub open spec fn leg_text(label: Seq<char>, bars: Option<&str>) -> Seq<Seq<char>> {
    match bars {
        Some(b) => seq![label + b@],
        None => seq![],
    }
}

/// The line on how long positions were held: one value where all agree, else the
/// average, the least and the most, those of them that there are. None where no
/// position was closed.
pub fn format_holding_line(
    avg: Option<&str>,
    min: Option<&str>,
    max: Option<&str>,
    same: Option<&str>,
) -> (out: Option<String>)
    ensures
        match out {
            None => avg is None && min is None && max is None,
            Some(line) => (avg is Some || min is Some || max is Some) && line@ == (match same {
                Some(s) => s@,
                None => text::joined(
                    leg_text("avg "@, avg) + leg_text("min "@, min) + leg_text("max "@, max),
                    " · "@,
                ),
            }),
        },
{
    if avg.is_none() && min.is_none() && max.is_none() {
        return None;
    }
    if let Some(s) = same {
        return Some(s.to_owned());
    }
    let mut parts: Vec<String> = Vec::new();
    assert(text::texts(parts@) =~= Seq::<Seq<char>>::empty());
    push_leg(&mut parts, "avg ", avg);
    push_leg(&mut parts, "min ", min);
    push_leg(&mut parts, "max ", max);
    assert(text::texts(parts@) =~= leg_text("avg "@, avg) + leg_text("min "@, min) + leg_text(
        "max "@,
        max,
    ));
    Some(text::join(&parts, " · "))
}

fn push_leg(parts: &mut Vec<String>, label: &str, bars: Option<&str>)
    ensures
        text::texts(final(parts)@) == text::texts(old(parts)@) + leg_text(label@, bars),
{
    let ghost was = parts@;
    match bars {
        Some(b) => {
            let mut part: String = label.to_owned();
            part.append(b);
            parts.push(part);
            assert(text::texts(parts@) =~= text::texts(was) + leg_text(label@, bars));
        },
        None => {
            assert(text::texts(parts@) =~= text::texts(was) + leg_text(label@, bars));
        },
    }
}

/// The line on the bars that were evaluated: the first and the last label after
/// the warm-up, how many there are, and how long the warm-up was where there was
/// one. None where the warm-up took all bars.
pub fn evaluated_period_line(labels: &[String], warmup: usize) -> (out: Option<String>)
    ensures
        match out {
            None => warmup >= labels@.len(),
            Some(line) => warmup < labels@.len() && line@ == labels@[warmup as int]@ + " → "@
                + labels@.last()@ + " ("@ + text::decimal((labels@.len() - warmup) as nat)
                + " bars"@ + (if warmup == 0 {
                seq![]
            } else {
                ", "@ + text::decimal(warmup as nat) + " warm-up"@
            }) + ")"@,
        },
{
    let n: usize = labels.len();
    if warmup >= n {
        return None;
    }
    let mut out: String = labels[warmup].clone();
    out.append(" → ");
    out.append(&labels[n - 1]);
    out.append(" (");
    out.append(&text::decimal_string((n - warmup) as u64));
    out.append(" bars");
    let ghost before = out@;
    if warmup != 0 {
        out.append(", ");
        out.append(&text::decimal_string(warmup as u64));
        out.append(" warm-up");
        assert(out@ =~= before + (", "@ + text::decimal(warmup as nat) + " warm-up"@));
    } else {
        assert(out@ =~= before + Seq::<char>::empty());
    }
    out.append(")");
    Some(out)
}

/// What stands after the last dot; all of it where there is none.
pub open spec fn after_last_dot(s: Seq<char>) -> Seq<char>
    decreases s.len(),
{
    if s.len() == 0 || s.last() == '.' {
        seq![]
    } else {
        after_last_dot(s.drop_last()).push(s.last())
    }
}

/// The name of a measure without the section it belongs to.
pub fn friendly_metric_label(dotted_or_short: &str) -> (out: String)
    ensures
        out@ == after_last_dot(dotted_or_short@),
{
    let chars: Vec<char> = text::chars_of(dotted_or_short);
    let n: usize = chars.len();
    let mut out: String = String::new();
    assert(chars@.take(0) =~= Seq::<char>::empty());
    for i in 0..n
        invariant
            n == chars@.len(),
            out@ == after_last_dot(chars@.take(i as int)),
    {
        assert(chars@.take(i + 1).drop_last() =~= chars@.take(i as int));
        if chars[i] == '.' {
            out = String::new();
        } else {
            out.push(chars[i]);
        }
    }
    assert(chars@.take(n as int) =~= chars@);
    out
}

/// A name without a dot is its own short name, and what stands before the last dot
/// does not matter.
pub proof fn only_the_last_part_counts(section: Seq<char>, name: Seq<char>)
    requires
        forall|i: int| 0 <= i < name.len() ==> name[i] != '.',
    ensures
        after_last_dot(name) == name,
        after_last_dot(section.push('.') + name) == name,
    decreases name.len(),
{
    let whole = section.push('.') + name;
    if name.len() > 0 {
        only_the_last_part_counts(section, name.drop_last());
        assert(whole.drop_last() =~= section.push('.') + name.drop_last());
        assert(name.drop_last().push(name.last()) =~= name);
        assert(whole.last() == name.last());
    } else {
        assert(whole =~= section.push('.'));
        assert(whole.last() == '.');
        assert(name =~= Seq::<char>::empty());
    }
}

} // verus!
