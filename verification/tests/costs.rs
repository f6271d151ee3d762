//! The cost grammar, the folding of its terms, and what a configuration resolves to.

use fugazi::convert::read_tree;
use fugazi::cost_models::{config, CommissionSpec, CostConfig, SlippageSpec, SpreadSpec, TradingCosts};
use fugazi::costs::{
    apply_term, assign_path, check_variant, deep_merge, empty_tree, normalize_leg,
    normalize_model_value, normalize_preset, normalize_tree_to_internal_tags, parse_term,
    split_top_commas, CostSpec, CostTerm, RawTerm, Reading,
};
use fugazi::frequency::Frequency;
use fugazi::json::{member, Json};
use fugazi::number::Real;
use fugazi::ordmap::OrdMap;

fn dbl(x: f64) -> Real {
    Real { bits: x.to_bits() }
}

fn num(x: Real) -> f64 {
    f64::from_bits(x.bits)
}

fn json(text: &str) -> Json {
    read_tree(text).unwrap()
}

fn object(text: &str) -> OrdMap<String, Json> {
    match json(text) {
        Json::Object(o) => o,
        other => panic!("{text}: {other:?}"),
    }
}

fn from_str(text: &str) -> Result<CostSpec, String> {
    CostSpec::parse(text, &[])
}

fn parse(spec: &str) -> CostSpec {
    from_str(spec).unwrap()
}

fn config_of(specs: &[&str]) -> CostConfig {
    let specs: Vec<CostSpec> = specs.iter().map(|s| parse(s)).collect();
    config(&specs).unwrap()
}

/// A list that loads one preset.
fn preset(text: &str) -> CostSpec {
    CostSpec::parse("@fees.yml", &[Some(text.to_string())]).unwrap()
}

/// Half of the spread that a model gives at a price.
fn half_spread(costs: &TradingCosts, price: f64) -> f64 {
    match costs.spread {
        Some(SpreadSpec::Bps { bps }) => price * num(*bps) / 10_000.0 / 2.0,
        Some(SpreadSpec::Absolute { amount }) => num(*amount) / 2.0,
        _ => 0.0,
    }
}

#[test]
fn costs_empty_specs_produce_empty_config() {
    let cfg = config(&[]).unwrap();
    assert!(cfg.is_none());
}

#[test]
fn costs_none_literal_resets_prior_layers() {
    let cfg = config_of(&["commission=!percentage { rate: 0.001 }", "none"]);
    assert!(cfg.is_none());
}

#[test]
fn costs_inline_commission_sets_default() {
    let cfg = config_of(&["commission=!percentage { rate: 0.001 }"]);
    assert!(matches!(
        cfg.commission.default,
        Some(CommissionSpec::Percentage { rate }) if (num(rate) - 0.001).abs() < 1e-12
    ));
}

#[test]
fn costs_dotted_key_targets_default_leaf() {
    // The first term establishes the default; the second nudges its `rate`.
    let cfg = config_of(&[
        "commission=!percentage { rate: 0.001 }",
        "commission.rate=0.0004",
    ]);
    assert!(matches!(
        cfg.commission.default,
        Some(CommissionSpec::Percentage { rate }) if (num(rate) - 0.0004).abs() < 1e-12
    ));
}

#[test]
fn costs_symbol_scoped_overrides_default_at_resolution() {
    let cfg = config_of(&[
        "spread=!bps { bps: 10 }",
        "BTC:spread=!bps { bps: 3 }",
    ]);
    // Global default is 10 bps; BTC gets its own 3 bps.
    let btc = cfg.resolve("BTC", None);
    let eth = cfg.resolve("ETH", None);
    // A 100-price probe: BTC's half-spread is 0.015; ETH's is 0.05.
    assert!((half_spread(&btc, 100.0) - 0.015).abs() < 1e-9);
    assert!((half_spread(&eth, 100.0) - 0.05).abs() < 1e-9);
}

#[test]
fn costs_symbol_plus_freq_wins_over_symbol_only() {
    let cfg = config_of(&[
        "BTC:spread=!bps { bps: 10 }",
        "BTC[1d]:spread=!bps { bps: 2 }",
    ]);
    let daily = cfg.resolve("BTC", Some(Frequency::Day(1)));
    let hourly = cfg.resolve("BTC", Some(Frequency::Hour(1)));
    // Daily gets the more-specific 2 bps; hourly falls back to the 10-bps
    // symbol-only entry.
    assert!((half_spread(&daily, 100.0) - 0.01).abs() < 1e-9);
    assert!((half_spread(&hourly, 100.0) - 0.05).abs() < 1e-9);
}

#[test]
fn costs_later_scoped_entry_wins_at_same_specificity() {
    // Two same-scope entries; later wins.
    let cfg = config_of(&[
        "BTC[1d]:spread=!bps { bps: 5 }",
        "BTC[1d]:spread=!bps { bps: 2 }",
    ]);
    let daily = cfg.resolve("BTC", Some(Frequency::Day(1)));
    assert!((half_spread(&daily, 100.0) - 0.01).abs() < 1e-9);
}

#[test]
fn costs_preset_flat_leg_normalizes_to_default() {
    let yaml = r#"
        commission:
          kind: percentage
          rate: 0.001
        spread:
          kind: bps
          bps: 5
    "#;
    let cfg = config(&[preset(yaml)]).unwrap();
    assert!(matches!(
        cfg.commission.default,
        Some(CommissionSpec::Percentage { .. })
    ));
    assert!(matches!(cfg.spread.default, Some(SpreadSpec::Bps { .. })));
}

#[test]
fn costs_preset_structured_by_symbol_populates_map() {
    let yaml = r#"
        spread:
          default: { kind: bps, bps: 2 }
          by_symbol:
            BTC: { kind: bps, bps: 1 }
            ETH: { kind: bps, bps: 1.5 }
    "#;
    let cfg = config(&[preset(yaml)]).unwrap();
    let btc = cfg.resolve("BTC", None);
    let eth = cfg.resolve("ETH", None);
    let other = cfg.resolve("XRP", None);
    assert!((half_spread(&btc, 100.0) - 0.005).abs() < 1e-9);
    assert!((half_spread(&eth, 100.0) - 0.0075).abs() < 1e-9);
    assert!((half_spread(&other, 100.0) - 0.01).abs() < 1e-9);
}

#[test]
fn costs_rejects_unknown_leg() {
    let err = from_str("wallet=!percentage { rate: 0.001 }").unwrap_err();
    assert!(err.contains("commission"));
}

#[test]
fn costs_rejects_bad_scope_prefix() {
    let err = from_str("BTC[NOPE]:spread=!bps { bps: 1 }").unwrap_err();
    assert!(err.contains("scope"));
}

#[test]
fn costs_rejects_unknown_model_kind() {
    // The build path is where the typed deserialize runs; check we hit it.
    let err = config(&[parse("commission=!martian { rate: 0.001 }")]).unwrap_err();
    let msg = format!("{err}");
    assert!(
        msg.contains("kind") || msg.contains("commission") || msg.contains("martian"),
        "unexpected error: {msg}"
    );
}

#[test]
fn mod_empty_specs_produce_empty_config() {
    let cfg = config(&[]).unwrap();
    assert!(cfg.is_none());
}

#[test]
fn mod_none_literal_resets_prior_layers() {
    let cfg = config_of(&["commission=!percentage { rate: 0.001 }", "none"]);
    assert!(cfg.is_none());
}

#[test]
fn mod_inline_commission_sets_default() {
    let cfg = config_of(&["commission=!percentage { rate: 0.001 }"]);
    assert!(matches!(
        cfg.commission.default,
        Some(CommissionSpec::Percentage { rate }) if (num(rate) - 0.001).abs() < 1e-12
    ));
}

#[test]
fn mod_dotted_key_targets_default_leaf() {
    // The first term establishes the default; the second nudges its `rate`.
    let cfg = config_of(&[
        "commission=!percentage { rate: 0.001 }",
        "commission.rate=0.0004",
    ]);
    assert!(matches!(
        cfg.commission.default,
        Some(CommissionSpec::Percentage { rate }) if (num(rate) - 0.0004).abs() < 1e-12
    ));
}

#[test]
fn mod_symbol_scoped_overrides_default_at_resolution() {
    let cfg = config_of(&[
        "spread=!bps { bps: 10 }",
        "BTC:spread=!bps { bps: 3 }",
    ]);
    // Global default is 10 bps; BTC gets its own 3 bps.
    let btc = cfg.resolve("BTC", None);
    let eth = cfg.resolve("ETH", None);
    // A 100-price probe: BTC's half-spread is 0.015; ETH's is 0.05.
    assert!((half_spread(&btc, 100.0) - 0.015).abs() < 1e-9);
    assert!((half_spread(&eth, 100.0) - 0.05).abs() < 1e-9);
}

#[test]
fn mod_symbol_plus_freq_wins_over_symbol_only() {
    let cfg = config_of(&[
        "BTC:spread=!bps { bps: 10 }",
        "BTC[1d]:spread=!bps { bps: 2 }",
    ]);
    let daily = cfg.resolve("BTC", Some(Frequency::Day(1)));
    let hourly = cfg.resolve("BTC", Some(Frequency::Hour(1)));
    // Daily gets the more-specific 2 bps; hourly falls back to the 10-bps
    // symbol-only entry.
    assert!((half_spread(&daily, 100.0) - 0.01).abs() < 1e-9);
    assert!((half_spread(&hourly, 100.0) - 0.05).abs() < 1e-9);
}

#[test]
fn mod_later_scoped_entry_wins_at_same_specificity() {
    // Two same-scope entries; later wins.
    let cfg = config_of(&[
        "BTC[1d]:spread=!bps { bps: 5 }",
        "BTC[1d]:spread=!bps { bps: 2 }",
    ]);
    let daily = cfg.resolve("BTC", Some(Frequency::Day(1)));
    assert!((half_spread(&daily, 100.0) - 0.01).abs() < 1e-9);
}

#[test]
fn mod_preset_flat_leg_normalizes_to_default() {
    let yaml = r#"
        commission:
          kind: percentage
          rate: 0.001
        spread:
          kind: bps
          bps: 5
    "#;
    let cfg = config(&[preset(yaml)]).unwrap();
    assert!(matches!(
        cfg.commission.default,
        Some(CommissionSpec::Percentage { .. })
    ));
    assert!(matches!(cfg.spread.default, Some(SpreadSpec::Bps { .. })));
}

#[test]
fn mod_preset_structured_by_symbol_populates_map() {
    let yaml = r#"
        spread:
          default: { kind: bps, bps: 2 }
          by_symbol:
            BTC: { kind: bps, bps: 1 }
            ETH: { kind: bps, bps: 1.5 }
    "#;
    let cfg = config(&[preset(yaml)]).unwrap();
    let btc = cfg.resolve("BTC", None);
    let eth = cfg.resolve("ETH", None);
    let other = cfg.resolve("XRP", None);
    assert!((half_spread(&btc, 100.0) - 0.005).abs() < 1e-9);
    assert!((half_spread(&eth, 100.0) - 0.0075).abs() < 1e-9);
    assert!((half_spread(&other, 100.0) - 0.01).abs() < 1e-9);
}

#[test]
fn mod_rejects_unknown_leg() {
    let err = from_str("wallet=!percentage { rate: 0.001 }").unwrap_err();
    assert!(err.contains("commission"));
}

#[test]
fn mod_rejects_bad_scope_prefix() {
    let err = from_str("BTC[NOPE]:spread=!bps { bps: 1 }").unwrap_err();
    assert!(err.contains("scope"));
}

#[test]
fn mod_rejects_unknown_model_kind() {
    // The build path is where the typed deserialize runs; check we hit it.
    let err = config(&[parse("commission=!martian { rate: 0.001 }")]).unwrap_err();
    let msg = format!("{err}");
    assert!(
        msg.contains("kind") || msg.contains("commission") || msg.contains("martian"),
        "unexpected error: {msg}"
    );
}

fn text_of(v: &Json) -> String {
    match v {
        Json::Null => "null".to_string(),
        Json::Bool(b) => b.to_string(),
        Json::Number(n) => n.text.clone(),
        Json::Text(s) => format!("{s:?}"),
        Json::Array(items) => {
            format!("[{}]", items.iter().map(text_of).collect::<Vec<_>>().join(","))
        }
        Json::Object(o) => object_text(o),
    }
}

fn object_text(o: &OrdMap<String, Json>) -> String {
    let members: Vec<String> =
        o.entries.iter().map(|(k, v)| format!("{k}:{}", text_of(v))).collect();
    format!("{{{}}}", members.join(","))
}

fn words(parts: &[&str]) -> Vec<String> {
    parts.iter().map(|p| p.to_string()).collect()
}

/// Commas inside brackets, braces, parentheses and quotes do not split.
#[test]
fn commas_split_at_the_top_only() {
    assert_eq!(split_top_commas("a,{b,c},[d,e],\"f,g\",h").unwrap(), [
        "a", "{b,c}", "[d,e]", "\"f,g\"", "h"
    ]);
    assert!(split_top_commas("").unwrap().is_empty());
    assert_eq!(split_top_commas("a,{b").unwrap_err(), "unclosed bracket in cost spec");
    assert_eq!(split_top_commas("a}").unwrap_err(), "unexpected `}` in cost spec");
}

/// A text is read as the tree that it spells.
#[test]
fn texts_are_read_as_trees() {
    assert_eq!(text_of(&json("!bps { bps: 5 }")), "{bps:{bps:5}}");
    assert_eq!(text_of(&json("[1.5, true, null, x]")), "[1.5,true,null,\"x\"]");
    assert_eq!(text_of(&json("{ 7: a, true: b }")), "{7:\"a\",true:\"b\"}");
    assert!(read_tree(".inf").is_none(), "a number that is not finite");
    assert!(read_tree("{ a: [ }").is_none());
    assert!(read_tree("{ a: 1, a: 2 }").is_none(), "a key that stands twice");
}

/// Values and presets are read where their terms stand.
#[test]
fn readings_stand_where_their_terms_do() {
    let text = "none,@fees.yml,spread=!bps { bps: 2 }";
    let presets = [None, Some("commission: !fixed { amount: 1 }".to_string()), None];
    let spec = CostSpec::parse(text, &presets).unwrap();
    assert!(matches!(spec.terms[0], CostTerm::Reset));
    assert!(matches!(&spec.terms[1], CostTerm::Load { label, content: Reading::Value(_) }
        if label == "fees.yml"));
    let cfg = config(&[spec]).unwrap();
    assert!(matches!(cfg.commission.default, Some(CommissionSpec::Fixed { .. })));
    assert!(matches!(cfg.spread.default, Some(SpreadSpec::Bps { .. })));
    let unread = CostSpec::parse(text, &[]).unwrap();
    assert!(matches!(&unread.terms[1], CostTerm::Load { content: Reading::Unread, .. }));
}

#[test]
fn terms_are_told_apart() {
    assert!(matches!(parse_term("none").unwrap(), RawTerm::Reset));
    assert!(matches!(parse_term("@fees.yml").unwrap(), RawTerm::Load(p) if p == "fees.yml"));
    match parse_term("BTC:commission.rate=0.0004").unwrap() {
        RawTerm::Assign { scope, key, value, .. } => {
            assert_eq!(scope.symbol.as_deref(), Some("BTC"));
            assert_eq!(key, ["commission", "rate"]);
            assert_eq!(value, "0.0004");
        }
        other => panic!("{other:?}"),
    }
    assert!(parse_term("commission").is_err(), "a bare word is no term");
    assert!(parse_term("=1").is_err(), "an empty key");
}

/// An unreadable value is refused where it is written, with its key.
#[test]
fn an_unreadable_value_is_refused() {
    let err = from_str("commission={ rate: [ }").unwrap_err();
    assert!(!err.is_empty());
    assert!(from_str("commission=*nowhere").unwrap_err().contains("commission"));
}

/// A preset that cannot be had, cannot be parsed, or is no mapping.
#[test]
fn a_bad_preset_is_refused() {
    let refusal = |text: Option<&str>| {
        let spec = CostSpec::parse("@fees.yml", &[text.map(String::from)]).unwrap();
        config(&[spec]).unwrap_err()
    };
    assert_eq!(refusal(None), "reading --costs file");
    assert_eq!(refusal(Some("{ a: [ }")), "parsing --costs file fees.yml");
    assert_eq!(refusal(Some("{ ? [1] : 2 }")), "parsing --costs file fees.yml");
    assert_eq!(
        refusal(Some("[1, 2]")),
        "normalizing --costs preset fees.yml: cost preset must be a mapping (got array)"
    );
    assert!(config(&[preset("wallet: { kind: none }")]).is_err(), "an unknown leg");
}

/// A tag and a lone key become an internal `kind`; twice is as good as once.
#[test]
fn model_values_have_one_normal_form() {
    let tagged = normalize_model_value(&json("!percentage { rate: 0.001 }"));
    assert_eq!(text_of(&tagged), r#"{kind:"percentage",rate:0.001}"#);
    let again = normalize_model_value(&tagged);
    assert_eq!(text_of(&again), text_of(&tagged));
    let listed = normalize_model_value(&json("!composite { parts: [!fixed { amount: 1 }] }"));
    assert_eq!(
        text_of(&listed),
        r#"{kind:"composite",parts:[{amount:1,kind:"fixed"}]}"#
    );
}

#[test]
fn a_flat_leg_is_its_default() {
    let leg = normalize_leg(&json("{ kind: bps, bps: 5 }")).unwrap();
    assert_eq!(text_of(&leg), r#"{default:{bps:5,kind:"bps"}}"#);
    let shaped = normalize_leg(&json("{ by_symbol: { BTC: { kind: none } } }")).unwrap();
    assert_eq!(text_of(&shaped), r#"{by_symbol:{BTC:{kind:"none"}}}"#);
    assert_eq!(text_of(&normalize_leg(&json("7")).unwrap()), "7");
    assert!(normalize_leg(&json("{ rate: 1 }")).is_err(), "neither shape");
    assert!(normalize_leg(&json("{ kind: none, default: 1 }")).is_err(), "both shapes");
}

#[test]
fn a_preset_becomes_a_tree() {
    let tree = normalize_preset(&json("spread: !bps { bps: 5 }")).unwrap();
    let tree = normalize_tree_to_internal_tags(&tree);
    assert_eq!(object_text(&tree), r#"{spread:{default:{bps:5,kind:"bps"}}}"#);
    assert!(normalize_preset(&json("[]")).is_err());
}

/// Where both trees have a member, the later one's stands; the rest stays.
#[test]
fn later_layers_win_on_values() {
    let merged = deep_merge(&object("{a: {x: 1, y: 2}, b: 3}"), &object("{a: {y: 4}, c: 5}"));
    assert_eq!(object_text(&merged), "{a:{x:1,y:4},b:3,c:5}");
    let replaced = deep_merge(&object("{a: {x: 1}}"), &object("{a: 2}"));
    assert_eq!(object_text(&replaced), "{a:2}");
}

/// What was assigned is found, and its siblings stay.
#[test]
fn an_assignment_is_found_again() {
    let path = words(&["a", "b"]);
    let tree = json("{a: {c: 1}, d: 2}");
    let out = assign_path(Some(&tree), &path, 0, &json("7"));
    assert_eq!(text_of(&out), "{a:{b:7,c:1},d:2}");
    let fresh = assign_path(None, &path, 1, &json("7"));
    assert_eq!(text_of(&fresh), "{b:7}");
}

/// A path that names another variant than the one in force is refused.
#[test]
fn a_foreign_variant_is_refused() {
    let leg = json("{ kind: percentage, rate: 0.001 }");
    assert!(check_variant("commission", Some(&leg), &words(&["percentage", "rate"])).is_ok());
    let err = check_variant("commission", Some(&leg), &words(&["fixed", "amount"])).unwrap_err();
    assert!(err.contains("commission"), "{err}");
}

#[test]
fn a_reset_forgets_everything() {
    let tree = apply_term(&empty_tree(), &parse("spread=!bps { bps: 5 }").terms[0]).unwrap();
    assert!(text_of(member(&tree, "spread").unwrap()).contains("bps"));
    let reset = apply_term(&tree, &CostTerm::Reset).unwrap();
    assert_eq!(object_text(&reset), object_text(&empty_tree()));
}

/// A cadence alone applies to every symbol, and less than a symbol does.
#[test]
fn a_cadence_comes_after_a_symbol() {
    let cfg = config_of(&[
        "spread=!bps { bps: 8 }",
        "[1h]:spread=!bps { bps: 6 }",
        "BTC:spread=!bps { bps: 4 }",
    ]);
    let hour = Some(Frequency::Hour(1));
    assert!((half_spread(&cfg.resolve("BTC", hour), 100.0) - 0.02).abs() < 1e-9);
    assert!((half_spread(&cfg.resolve("ETH", hour), 100.0) - 0.03).abs() < 1e-9);
    assert!((half_spread(&cfg.resolve("ETH", None), 100.0) - 0.04).abs() < 1e-9);
    assert_eq!(cfg.scoped_count(), 2);
    assert!(cfg.has_any_default());
    assert!(!cfg.is_none());
}

#[test]
fn every_model_can_be_named() {
    let cfg = config_of(&[
        "commission=!max { lhs: !fixed { amount: 1 }, rhs: !per_unit { rate: 0.5 } }",
        "spread=!absolute { amount: 0.25 }",
        "slippage=!volume_participation { coefficient: 0.3 }",
    ]);
    assert!(matches!(cfg.commission.default, Some(CommissionSpec::Max { .. })));
    assert!(matches!(
        cfg.spread.default,
        Some(SpreadSpec::Absolute { amount }) if amount == dbl(0.25)
    ));
    assert!(matches!(
        cfg.slippage.default,
        Some(SlippageSpec::VolumeParticipation { coefficient, exponent: None, stop_multiplier: None })
            if coefficient == dbl(0.3)
    ));
    let free = config_of(&["commission=!none {}"]);
    assert!(matches!(free.commission.default, Some(CommissionSpec::Free)));
    assert!(free.resolve("BTC", None).spread.is_none());
}
