use lib::hexcode::{hex, unhex};
use lib::keymap::{available_launcher_symbol, drifted_keycodes, protected};
use lib::rules::{decode, Rule};
use std::collections::BTreeMap;

#[test]
fn unicode_command_roundtrip() {
    let s = "kitty --title '測試 space'\n% $";
    assert_eq!(unhex(&hex(s)).unwrap(), s);
}

#[test]
fn reject_corrupt() {
    assert!(decode("102\t00").is_err());
    assert!(decode("999\t\t\t\t").is_err());
    assert!(unhex("zz").is_err());
    assert!(unhex("漢字").is_err());
}

#[test]
fn protect_modifiers_only() {
    assert!(protected("Super_L NoSymbol"));
    assert!(!protected("Muhenkan NoSymbol Muhenkan"));
    assert!(!protected("BackSpace"));
}

#[test]
fn skips_mapped_and_bound_symbols() {
    let current = BTreeMap::from([(20, "F13 F14".into())]);
    assert_eq!(
        available_launcher_symbol(
            &current,
            "/commands/custom/F15 something\n/xfwm4/custom/<Super>F16 action"
        )
        .unwrap(),
        "F17"
    );
}

#[test]
fn reports_exhaustion() {
    let current = BTreeMap::from([(
        20,
        (13..=35)
            .map(|i| format!("F{i}"))
            .collect::<Vec<_>>()
            .join(" "),
    )]);
    assert!(available_launcher_symbol(&current, "").is_err());
}

#[test]
fn detects_only_drifted_mappings() {
    let current = BTreeMap::from([
        (102, "space space space space".into()),
        (132, "yen bar yen bar".into()),
    ]);
    let rules = BTreeMap::from([
        (
            102,
            Rule {
                original: "Muhenkan NoSymbol Muhenkan".into(),
                mapped: "space space space space".into(),
                command: String::new(),
                shortcut: String::new(),
            },
        ),
        (
            132,
            Rule {
                original: "yen bar yen bar".into(),
                mapped: "BackSpace BackSpace BackSpace BackSpace".into(),
                command: String::new(),
                shortcut: String::new(),
            },
        ),
    ]);
    assert_eq!(drifted_keycodes(&current, &rules), vec![132]);
}
