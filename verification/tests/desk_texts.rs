use lib::compose::original_symbols;
use lib::desktop::{desktop_entry, launch_command, quote};
use lib::labels::{key_label, rules_summary};
use lib::live::{expected_keysyms, keysym_window, live_drifted_keycodes, symbol_names, table_width};
use lib::rules::Rule;
use lib::watch::{Verdict, Watch};
use std::collections::BTreeMap;

fn rule(original: &str, mapped: &str, command: &str) -> Rule {
    Rule {
        original: original.into(),
        mapped: mapped.into(),
        command: command.into(),
        shortcut: String::new(),
    }
}

#[test]
fn quote_protects_single_quotes() {
    assert_eq!(quote("/usr/share/a b.desktop"), "'/usr/share/a b.desktop'");
    assert_eq!(quote("it's"), "'it'\\''s'");
    assert_eq!(quote(""), "''");
}

#[test]
fn desktop_entry_escapes_like_the_replace_chain() {
    let exe = "/opt/a\\b\"c`d$e%f g";
    let escaped = exe
        .replace('\\', "\\\\")
        .replace('"', "\\\"")
        .replace('`', "\\`")
        .replace('$', "\\$")
        .replace('%', "%%");
    let want = format!("[Desktop Entry]\nType=Application\nName=Key Layout mappings\nExec=\"{escaped}\" --watch\nOnlyShowIn=XFCE;\nTerminal=false\n");
    assert_eq!(desktop_entry(exe), want);
}

#[test]
fn key_label_agrees_with_replace() {
    for m in ["BackSpace BackSpace", "space", "", "Muhenkan", "spacespace x"] {
        let want = m
            .split_whitespace()
            .next()
            .unwrap_or("Unassigned")
            .replace("BackSpace", "Backspace")
            .replace("space", "Space");
        assert_eq!(key_label(m), want, "{m:?}");
    }
    assert_eq!(key_label("BackSpace"), "BackSpace");
    assert_eq!(key_label("space"), "Space");
}

#[test]
fn summary_lists_rules_in_key_order() {
    let names = BTreeMap::from([(102u16, "Blank\n1".to_string())]);
    let rules = BTreeMap::from([
        (132, rule("yen", "BackSpace BackSpace", "")),
        (102, rule("x", "F13 F13", "kitty")),
        (9, rule("x", "", "")),
    ]);
    assert_eq!(rules_summary(&rules, &names), "9 → \nBlank 1 → kitty\n132 → BackSpace");
    assert_eq!(rules_summary(&BTreeMap::new(), &names), "No saved changes.");
}

#[test]
fn expected_keysyms_pads_and_rejects() {
    let names = symbol_names("a NoSymbol b");
    assert_eq!(names, vec!["a", "NoSymbol", "b"]);
    let looks = vec![Ok(97), Ok(0), Ok(98)];
    assert_eq!(expected_keysyms("a NoSymbol b", 5, &looks), Ok(vec![97, 0, 98, 0, 0]));
    assert_eq!(
        expected_keysyms("a NoSymbol b", 2, &looks),
        Err("Saved mapping is wider than the current X11 keymap".into())
    );
    let unknown = vec![Ok(97), Ok(0), Ok(0)];
    assert_eq!(expected_keysyms("a NoSymbol zz", 5, &unknown), Err("Unknown X11 key symbol: zz".into()));
    let broken = vec![Err("nul byte".to_string()), Ok(0), Ok(0)];
    assert_eq!(expected_keysyms("a NoSymbol zz", 5, &broken), Err("nul byte".into()));
}

#[test]
fn keysym_window_and_width() {
    assert_eq!(keysym_window(&BTreeMap::new()), Ok(None));
    let rules = BTreeMap::from([(100, rule("", "a", "")), (102, rule("", "b", ""))]);
    assert_eq!(keysym_window(&rules), Ok(Some((100, 3))));
    let wide = BTreeMap::from([(300, rule("", "a", ""))]);
    assert_eq!(keysym_window(&wide), Err("Invalid X11 keycode: 300".into()));
    assert_eq!(table_width(None), Err("Cannot read the current X11 keyboard mapping".into()));
    assert_eq!(table_width(Some(0)), Err("X11 returned an empty keyboard mapping".into()));
    assert_eq!(table_width(Some(4)), Ok(4));
}

#[test]
fn live_drift_compares_rows() {
    let rules = BTreeMap::from([(100, rule("", "a", "")), (102, rule("", "b c", ""))]);
    let table = vec![97, 0, 5, 5, 98, 99];
    let lookups = vec![vec![Ok(97)], vec![Ok(98), Ok(99)]];
    assert_eq!(live_drifted_keycodes(&rules, 100, 2, &table, &lookups), Ok(vec![]));
    let moved = vec![97, 1, 5, 5, 98, 0];
    assert_eq!(live_drifted_keycodes(&rules, 100, 2, &moved, &lookups), Ok(vec![100, 102]));
    let bad = vec![vec![Ok(0)], vec![Ok(98), Ok(99)]];
    assert_eq!(
        live_drifted_keycodes(&rules, 100, 2, &table, &bad),
        Err("Unknown X11 key symbol: a".into())
    );
}

#[test]
fn watch_reports_each_failure_once() {
    let mut w = Watch::new();
    assert!(matches!(w.inspected(&Ok(vec![])), Verdict::Quiet));
    assert!(matches!(w.inspected(&Ok(vec![102])), Verdict::Recheck));
    match w.inspected(&Err("x".into())) {
        Verdict::Report(l) => assert_eq!(l, "Could not inspect saved mappings: x"),
        _ => panic!("first failure is reported"),
    }
    assert!(matches!(w.inspected(&Err("x".into())), Verdict::Quiet));
    assert_eq!(w.reconciled(&Err("x".into())), None);
    assert_eq!(
        w.reconciled(&Err("y".into())),
        Some("Could not reapply saved mappings: y".into())
    );
    assert_eq!(w.reconciled(&Ok(3)), Some("Reapplied 3 saved key mapping(s).".into()));
    match w.inspected(&Err("y".into())) {
        Verdict::Report(l) => assert_eq!(l, "Could not inspect saved mappings: y"),
        _ => panic!("failure after success is reported"),
    }
}

#[test]
fn launch_command_quotes_the_path() {
    assert_eq!(launch_command("/a/it's.desktop"), "gio launch '/a/it'\\''s.desktop'");
}

#[test]
fn original_symbols_prefer_the_rule() {
    let rules = BTreeMap::from([(102u16, rule("Muhenkan", "space", ""))]);
    let baseline = BTreeMap::from([(102u16, "space".to_string()), (65u16, "space".to_string())]);
    assert_eq!(original_symbols(&rules, &baseline, 102), Some("Muhenkan".to_string()));
    assert_eq!(original_symbols(&rules, &baseline, 65), Some("space".to_string()));
    assert_eq!(original_symbols(&rules, &baseline, 9), None);
}
