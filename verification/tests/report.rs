//! What a run leaves behind: attribution, charts, and the shell scripts.

use fugazi::attribution::{Attribution, ChildFill};
use fugazi::chart::{label_index, tick_positions, value_range};
use fugazi::completions::{finish, patch_zsh, Shell};
use fugazi::number::Real;
use fugazi::orders::{Order, OrderKind, Side};

fn dbl(x: f64) -> Real {
    Real { bits: x.to_bits() }
}

fn dbls(xs: &[f64]) -> Vec<Real> {
    xs.iter().map(|&x| dbl(x)).collect()
}

fn fill(child: usize, bar: usize) -> ChildFill<&'static str> {
    ChildFill {
        child,
        bar,
        order: Order {
            symbol: "X",
            side: Side::Buy,
            units: dbl(1.0),
            price: dbl(2.0),
            kind: OrderKind::Market,
            id: 1,
            commission: dbl(0.0),
            requested_units: dbl(1.0),
            fill_ratio: dbl(1.0),
            materially_fitted: false,
        },
        crossed: false,
    }
}

fn parts() -> Attribution<&'static str> {
    Attribution::new(
        vec!["a".to_string(), "b".to_string()],
        vec![fill(0, 1), fill(1, 2)],
        vec![dbls(&[1.0, 2.0]), dbls(&[3.0, 4.0]), dbls(&[5.0, 6.0])],
    )
}

#[test]
fn an_attribution_gives_back_what_it_was_made_of() {
    let a = parts();
    assert_eq!(a.names(), ["a", "b"]);
    assert_eq!(a.child_count(), 2);
    assert_eq!(a.fills().len(), 2);
    assert_eq!(a.equity().len(), 3);
    assert_eq!(a.child_equity(0), dbls(&[1.0, 3.0, 5.0]));
    assert_eq!(a.child_equity(1), dbls(&[2.0, 4.0, 6.0]));
}

/// From a bar on, pinned rows are zero; those before stay.
#[test]
fn pinned_rows_are_zero() {
    let mut a = parts();
    a.pin_from(1);
    assert_eq!(a.child_equity(0), dbls(&[1.0, 0.0, 0.0]));
    assert_eq!(a.child_equity(1), dbls(&[2.0, 0.0, 0.0]));
    assert_eq!(a.fills().len(), 2, "fills stay");
    let mut untouched = parts();
    untouched.pin_from(7);
    assert_eq!(untouched, parts());
}

#[test]
fn the_range_covers_the_curve_and_the_cash() {
    assert_eq!(value_range(&dbls(&[3.0, -1.0, 2.0]), dbl(1.0)), (dbl(-1.0), dbl(3.0)));
    assert_eq!(value_range(&dbls(&[3.0]), dbl(5.0)), (dbl(3.0), dbl(5.0)));
    assert_eq!(value_range(&[], dbl(5.0)), (dbl(5.0), dbl(5.0)));
    assert_eq!(value_range(&dbls(&[f64::NAN, 2.0]), dbl(1.0)), (dbl(1.0), dbl(2.0)));
}

#[test]
fn ticks_stand_at_the_quarters() {
    assert_eq!(tick_positions(100), [0, 25, 50, 75, 99]);
    assert_eq!(tick_positions(1), [0]);
    assert_eq!(tick_positions(3), [0, 1, 2]);
    assert_eq!(label_index(7, 5), 4);
    assert_eq!(label_index(3, 5), 3);
    assert_eq!(label_index(3, 0), 0);
}

#[test]
fn only_the_zsh_script_is_patched() {
    let script = "'--series[x]:SERIES:_default' '*:SPEC:_default' 'a:inline YAML:_default' :X:_default";
    let patched = patch_zsh(script);
    assert!(patched.starts_with("# Value completion"));
    assert!(patched.contains("_fugazi_at_file() {"));
    assert!(patched.ends_with(
        "'--series[x]:SERIES:_fugazi_at_file' '*:SPEC:_fugazi_at_file' \
         'a:inline YAML:_fugazi_at_file' :X:_default"
    ));
    assert_eq!(finish(Shell::Zsh, script), patched);
    for shell in [Shell::Bash, Shell::Elvish, Shell::Fish, Shell::PowerShell] {
        assert_eq!(finish(shell, script), script);
    }
}
