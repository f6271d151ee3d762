//! Texts, numbers, cadences, ordered maps, sorting, and trees of values.

use fugazi::convert::{yaml_to_json, Yaml, YamlEntry};
use fugazi::frequency::{parse_interval, sort_frequencies, Frequency, Interval};
use fugazi::json::{copy, has, member, nothing, put, single, value_kind, Json, Numeral};
use fugazi::number::Real;
use fugazi::ordmap::OrdMap;
use fugazi::sorting::stable_sort;
use fugazi::text::{
    decimal_string, join, less, parse_signed, parse_unsigned, replace, split, split_once, trim,
};

fn dbl(x: f64) -> Real {
    Real { bits: x.to_bits() }
}

fn number(x: f64) -> Numeral {
    Numeral { text: format!("{x}"), value: dbl(x) }
}

fn entry(key: Yaml, value: Yaml) -> YamlEntry {
    YamlEntry { key, shown: "<key>".to_string(), value }
}

#[test]
fn texts_are_cut_and_joined() {
    assert_eq!(trim("\u{a0} \ta b\n"), "a b");
    assert_eq!(split("a,,b", ','), ["a", "", "b"]);
    assert_eq!(split_once("a=b=c", '='), Some(("a", "b=c")));
    assert_eq!(split_once("a", '='), None);
    assert_eq!(join(&["a".to_string(), "b".to_string()], ", "), "a, b");
    assert_eq!(replace("aaa", "aa", "b"), "ba");
    assert!(less("Z", "a"));
    assert!(!less("a", "a"));
    assert!(less("a", "ab"));
}

#[test]
fn decimals_come_back() {
    for n in [0, 7, 10, 1_704_067_200, u64::MAX] {
        assert_eq!(decimal_string(n), n.to_string());
        assert_eq!(parse_unsigned(&decimal_string(n), u64::MAX), Some(n));
    }
    assert_eq!(parse_unsigned("256", 255), None);
    assert_eq!(parse_unsigned("+1", 255), Some(1));
    assert_eq!(parse_unsigned("", 255), None);
    assert_eq!(parse_signed("-9223372036854775808"), Some(i64::MIN));
    assert_eq!(parse_signed("9223372036854775808"), None);
    assert_eq!(parse_signed("-"), None);
}

/// Numbers are ordered as doubles are.
#[test]
fn numbers_are_ordered_as_doubles() {
    let all = [f64::NEG_INFINITY, -1.5, -0.0, 0.0, 1e-300, 2.0, f64::INFINITY, f64::NAN];
    for a in all {
        for b in all {
            assert_eq!(dbl(a).less(dbl(b)), a < b, "{a} < {b}");
            assert_eq!(dbl(a).same_number(dbl(b)), a == b, "{a} == {b}");
        }
        assert_eq!(dbl(a).is_nan(), a.is_nan());
        assert_eq!(dbl(a).is_finite(), a.is_finite());
        assert_eq!(dbl(a).not_above_zero(), a <= 0.0);
        assert_eq!(dbl(a).is_above_zero(), a > 0.0);
        assert_eq!(dbl(a).is_below_zero(), a < 0.0);
    }
    assert_eq!(dbl(1.0).min(dbl(f64::NAN)), dbl(1.0));
    assert_eq!(dbl(f64::NAN).max(dbl(2.0)), dbl(2.0));
    assert_eq!(dbl(3.0).max(dbl(2.0)), dbl(3.0));
    assert_eq!(Real::zero(), dbl(0.0));
}

#[test]
fn cadences_come_back_from_their_codes() {
    for freq in [
        Frequency::Minute(5),
        Frequency::Hour(4),
        Frequency::Day(1),
        Frequency::Week(2),
        Frequency::Month(3),
    ] {
        assert_eq!(Frequency::parse(&freq.format()), Ok(freq));
    }
    assert!(Frequency::parse("1x").is_err());
    assert_eq!(Frequency::Hour(1).duration_seconds(), 3_600);
    assert_eq!(Frequency::Week(2).duration_seconds(), 1_209_600);
    assert!(matches!(parse_interval("15m"), Ok(Interval::Minute(15))));
    assert!(matches!(parse_interval("m"), Ok(Interval::Minute(1))));
    assert_eq!(parse_interval(" ").unwrap_err(), "empty interval token");
    assert!(parse_interval("3x").unwrap_err().contains("unknown unit letter \"x\""));
    let sorted = sort_frequencies(vec![Frequency::Day(1), Frequency::Minute(5), Frequency::Hour(4)]);
    assert_eq!(sorted, [Frequency::Minute(5), Frequency::Hour(4), Frequency::Day(1)]);
}

#[test]
fn a_map_keeps_its_keys_in_order() {
    let mut map: OrdMap<String, u8> = OrdMap::new();
    for (k, v) in [("b", 1), ("a", 2), ("c", 3), ("b", 4)] {
        map.insert(k.to_string(), v);
    }
    assert_eq!(map.len(), 3);
    assert_eq!(map.entries, [("a".to_string(), 2), ("b".to_string(), 4), ("c".to_string(), 3)]);
    assert_eq!(map.get(&"b".to_string()), Some(&4));
    assert_eq!(map.remove(&"b".to_string()), Some(4));
    assert_eq!(map.remove(&"b".to_string()), None);
    assert!(!map.contains(&"b".to_string()));
}

/// Things with equal keys stay in order.
#[test]
fn sorting_is_stable() {
    let items = vec![("b".to_string(), 1), ("a".to_string(), 2), ("b".to_string(), 3), ("a".to_string(), 4)];
    let order: Vec<i32> = stable_sort(items).into_iter().map(|(_, n)| n).collect();
    assert_eq!(order, [2, 4, 1, 3]);
}

#[test]
fn trees_are_read_and_written() {
    let mut o = single("b", Json::Bool(true));
    put(&mut o, "a", Json::Number(number(1.5)));
    assert!(has(&o, "a"));
    assert!(!has(&nothing(), "a"));
    assert!(matches!(member(&o, "b"), Some(Json::Bool(true))));
    let same = copy(&Json::Object(o));
    assert_eq!(value_kind(&same), "object");
    match same {
        Json::Object(o) => {
            let keys: Vec<&str> = o.entries.iter().map(|(k, _)| k.as_str()).collect();
            assert_eq!(keys, ["a", "b"]);
        }
        other => panic!("{other:?}"),
    }
    let kinds = [
        value_kind(&Json::Null),
        value_kind(&Json::Bool(false)),
        value_kind(&Json::Number(number(1.0))),
        value_kind(&Json::Text(String::new())),
        value_kind(&Json::Array(Vec::new())),
    ];
    assert_eq!(kinds, ["null", "bool", "number", "string", "array"]);
}

/// A tag becomes a mapping with the tag's name as its one key.
#[test]
fn a_tag_is_a_mapping() {
    let tagged = Yaml::Tagged(
        "!bps".to_string(),
        Box::new(Yaml::Mapping(vec![entry(
            Yaml::Text("bps".to_string()),
            Yaml::Number(number(5.0)),
        )])),
    );
    match yaml_to_json(&tagged).unwrap() {
        Json::Object(o) => match member(&o, "bps") {
            Some(Json::Object(inner)) => {
                assert!(matches!(member(inner, "bps"), Some(Json::Number(n)) if n.text == "5"));
            }
            other => panic!("{other:?}"),
        },
        other => panic!("{other:?}"),
    }
}

#[test]
fn a_document_becomes_a_tree() {
    let doc = Yaml::Mapping(vec![
        entry(Yaml::Text("t".to_string()), Yaml::Text("x".to_string())),
        entry(Yaml::Text("n".to_string()), Yaml::Null),
        entry(Yaml::Text("s".to_string()), Yaml::Sequence(vec![Yaml::Bool(true)])),
    ]);
    match yaml_to_json(&doc).unwrap() {
        Json::Object(o) => {
            assert!(matches!(member(&o, "t"), Some(Json::Text(s)) if s == "x"));
            assert!(matches!(member(&o, "n"), Some(Json::Null)));
            assert!(matches!(member(&o, "s"), Some(Json::Array(items)) if items.len() == 1));
        }
        other => panic!("{other:?}"),
    }
    let odd = Yaml::Mapping(vec![entry(Yaml::Null, Yaml::Null)]);
    assert!(yaml_to_json(&odd).unwrap_err().contains("<key>"));
}
