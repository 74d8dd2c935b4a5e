use lib::compose::{compose_rule, Target};
use lib::keymap::{maps, property};
use lib::rules::{decode, Rule};
use lib::session::{
    apply, change, launcher_symbol, mapping_expression, reconcile, remove_shortcut, restore,
    set_shortcut, Action, Next, Reply,
};
use std::collections::BTreeMap;

/// A pretend desktop: a keymap, desktop shortcuts, a rules file.
struct Desk {
    keys: BTreeMap<u16, String>,
    shortcuts: BTreeMap<String, String>,
    saved: Option<String>,
    fail_save: bool,
    fail_create: bool,
    fail_map: Option<u16>,
    log: Vec<String>,
}

impl Desk {
    fn new(keys: &[(u16, &str)]) -> Desk {
        Desk {
            keys: keys.iter().map(|(k, v)| (*k, v.to_string())).collect(),
            shortcuts: BTreeMap::new(),
            saved: None,
            fail_save: false,
            fail_create: false,
            fail_map: None,
            log: Vec::new(),
        }
    }

    fn listing(&self) -> String {
        self.keys
            .iter()
            .map(|(k, v)| format!("keycode {k:>3} = {v}"))
            .collect::<Vec<_>>()
            .join("\n")
    }

    fn perform(&mut self, a: &Action) -> Reply {
        match a {
            Action::ReadKeymap => {
                self.log.push("read".into());
                Ok(self.listing())
            }
            Action::SetMapping { keycode, symbols } => {
                self.log.push(format!("map {keycode} {symbols}"));
                if self.fail_map == Some(*keycode) {
                    return Err("xmodmap: bad".into());
                }
                self.keys.insert(*keycode, symbols.clone());
                Ok(String::new())
            }
            Action::QueryShortcut { property } => {
                self.log.push(format!("query {property}"));
                self.shortcuts.get(property).cloned().ok_or("xfconf-query: none".into())
            }
            Action::RemoveShortcut { property } => {
                self.log.push(format!("remove {property}"));
                self.shortcuts.remove(property);
                Ok(String::new())
            }
            Action::CreateShortcut { property, command } => {
                self.log.push(format!("create {property} {command}"));
                if self.fail_create {
                    return Err("xfconf-query: denied".into());
                }
                self.shortcuts.insert(property.clone(), command.clone());
                Ok(String::new())
            }
            Action::ListShortcuts => {
                self.log.push("list".into());
                Ok(self
                    .shortcuts
                    .iter()
                    .map(|(p, c)| format!("{p} {c}"))
                    .collect::<Vec<_>>()
                    .join("\n"))
            }
            Action::SaveRules { text } => {
                self.log.push("save".into());
                if self.fail_save {
                    return Err("disk full".into());
                }
                self.saved = Some(text.clone());
                Ok(String::new())
            }
        }
    }

    fn run<T>(&mut self, mut step: impl FnMut(&Vec<Reply>) -> Next<T>) -> Result<T, String> {
        let mut replies = Vec::new();
        loop {
            match step(&replies) {
                Next::Perform(a) => {
                    let r = self.perform(&a);
                    replies.push(r);
                }
                Next::Finish(r) => return r,
            }
        }
    }
}

fn rule(original: &str, mapped: &str, command: &str, shortcut: &str) -> Rule {
    Rule {
        original: original.into(),
        mapped: mapped.into(),
        command: command.into(),
        shortcut: shortcut.into(),
    }
}

#[test]
fn mapping_expression_and_property() {
    assert_eq!(mapping_expression(102, "space space"), "keycode 102 = space space");
    assert_eq!(property("F15"), "/commands/custom/F15");
}

#[test]
fn maps_reads_the_xmodmap_listing() {
    let m = maps("keycode   8 =\nkeycode  10 = 1 exclam  1 exclam\nnoise\nkeycode x = a\nkeycode 10 = 2 at\r\nkeycode 255 = a=b c");
    assert_eq!(m.len(), 3);
    assert_eq!(m[&8], "");
    assert_eq!(m[&10], "2 at");
    assert_eq!(m[&255], "a=b c");
}

#[test]
fn set_shortcut_cases() {
    let mut d = Desk::new(&[]);
    assert_eq!(d.run(|r| set_shortcut(&rule("a", "a", "", "F13"), r)), Ok(()));
    assert!(d.log.is_empty());
    let r = rule("a", "a", "kitty", "F13");
    assert_eq!(d.run(|x| set_shortcut(&r, x)), Ok(()));
    assert_eq!(d.shortcuts["/commands/custom/F13"], "kitty");
    d.log.clear();
    assert_eq!(d.run(|x| set_shortcut(&r, x)), Ok(()));
    assert_eq!(d.log, vec!["query /commands/custom/F13"]);
    let other = rule("a", "a", "firefox", "F13");
    assert_eq!(
        d.run(|x| set_shortcut(&other, x)),
        Err("This key already launches another command in XFCE.".into())
    );
    d.fail_create = true;
    let fresh = rule("a", "a", "kitty", "F14");
    assert_eq!(d.run(|x| set_shortcut(&fresh, x)), Err("xfconf-query: denied".into()));
}

#[test]
fn remove_shortcut_cases() {
    let mut d = Desk::new(&[]);
    let r = rule("a", "a", "kitty", "F13");
    assert_eq!(d.run(|x| remove_shortcut(&r, x)), Ok(()));
    d.shortcuts.insert("/commands/custom/F13".into(), "kitty".into());
    assert_eq!(d.run(|x| remove_shortcut(&r, x)), Ok(()));
    assert!(d.shortcuts.is_empty());
    d.shortcuts.insert("/commands/custom/F13".into(), "other".into());
    assert_eq!(
        d.run(|x| remove_shortcut(&r, x)),
        Err("Shortcut was changed outside this app; preserve it and resolve the conflict first."
            .into())
    );
}

#[test]
fn apply_then_restore() {
    let mut d = Desk::new(&[(102, "Muhenkan NoSymbol Muhenkan")]);
    let r = rule("Muhenkan NoSymbol Muhenkan", "Muhenkan NoSymbol Muhenkan", "kitty", "Muhenkan");
    assert_eq!(d.run(|x| apply(102, &r, x)), Ok(()));
    assert_eq!(d.shortcuts["/commands/custom/Muhenkan"], "kitty");
    assert_eq!(d.run(|x| restore(102, &r, x)), Ok(()));
    assert!(d.shortcuts.is_empty());
    assert_eq!(d.keys[&102], "Muhenkan NoSymbol Muhenkan");
}

#[test]
fn apply_unknown_key_and_rollback() {
    let mut d = Desk::new(&[(102, "Muhenkan")]);
    let r = rule("x", "space", "", "");
    assert_eq!(d.run(|x| apply(9, &r, x)), Err("Unknown keycode".into()));
    d.fail_create = true;
    let launch = rule("Muhenkan", "F13 F13 F13 F13", "kitty", "F13");
    assert_eq!(d.run(|x| apply(102, &launch, x)), Err("xfconf-query: denied".into()));
    assert_eq!(d.keys[&102], "Muhenkan");
    assert_eq!(
        d.log,
        vec![
            "read",
            "map 9 space",
        ][..1]
            .iter()
            .map(|s| s.to_string())
            .chain(
                [
                    "read",
                    "map 102 F13 F13 F13 F13",
                    "query /commands/custom/F13",
                    "create /commands/custom/F13 kitty",
                    "map 102 Muhenkan",
                ]
                .iter()
                .map(|s| s.to_string())
            )
            .collect::<Vec<_>>()
    );
}

#[test]
fn apply_rollback_failure_is_reported() {
    let mut d = Desk::new(&[(102, "Muhenkan")]);
    d.shortcuts.insert("/commands/custom/F13".into(), "other".into());
    let launch = rule("Muhenkan", "F13 F13 F13 F13", "kitty", "F13");
    let mut calls = 0;
    let result = d.run(|x| {
        calls += 1;
        apply(102, &launch, x)
    });
    assert_eq!(result, Err("This key already launches another command in XFCE.".into()));
    let mut d2 = Desk::new(&[(102, "Muhenkan")]);
    d2.shortcuts.insert("/commands/custom/F13".into(), "other".into());
    let replies: Vec<Reply> = vec![
        Ok(d2.listing()),
        Ok(String::new()),
        Ok("other".into()),
        Err("xmodmap: gone".into()),
    ];
    match apply(102, &launch, &replies) {
        Next::Finish(Err(e)) => assert_eq!(
            e,
            "This key already launches another command in XFCE.; restoring the previous mapping also failed: xmodmap: gone"
        ),
        _ => panic!("apply should end"),
    }
}

#[test]
fn change_adds_replaces_and_removes() {
    let mut d = Desk::new(&[(102, "Muhenkan"), (132, "yen bar")]);
    let mut rules: BTreeMap<u16, Rule> = BTreeMap::new();
    let r1 = Some(rule("Muhenkan", "space space space space", "", ""));
    assert_eq!(d.run(|x| change(&mut rules, 102, &r1, x)), Ok(()));
    assert_eq!(rules[&102].mapped, "space space space space");
    assert_eq!(d.keys[&102], "space space space space");
    let saved = decode(d.saved.as_ref().unwrap()).unwrap();
    assert_eq!(saved[&102].mapped, "space space space space");
    let r2 = Some(rule("Muhenkan", "Muhenkan", "kitty", "Muhenkan"));
    assert_eq!(d.run(|x| change(&mut rules, 102, &r2, x)), Ok(()));
    assert_eq!(rules[&102].command, "kitty");
    assert_eq!(d.keys[&102], "Muhenkan");
    assert_eq!(d.shortcuts["/commands/custom/Muhenkan"], "kitty");
    assert_eq!(d.run(|x| change(&mut rules, 102, &None, x)), Ok(()));
    assert!(rules.is_empty());
    assert!(d.shortcuts.is_empty());
    assert_eq!(d.saved.as_deref(), Some(""));
}

#[test]
fn change_failing_to_save_keeps_rules_and_undoes() {
    let mut d = Desk::new(&[(102, "Muhenkan")]);
    let mut rules: BTreeMap<u16, Rule> = BTreeMap::new();
    let r1 = Some(rule("Muhenkan", "space", "", ""));
    assert_eq!(d.run(|x| change(&mut rules, 102, &r1, x)), Ok(()));
    d.fail_save = true;
    d.log.clear();
    let r2 = Some(rule("Muhenkan", "Tab", "", ""));
    assert_eq!(d.run(|x| change(&mut rules, 102, &r2, x)), Err("disk full".into()));
    assert_eq!(rules.len(), 1);
    assert_eq!(rules[&102].mapped, "space");
    assert_eq!(d.keys[&102], "space");
    assert_eq!(
        d.log,
        vec!["map 102 Muhenkan", "read", "map 102 Tab", "save", "map 102 Muhenkan", "read", "map 102 space"]
    );
}

#[test]
fn change_failing_to_apply_puts_old_rule_back() {
    let mut d = Desk::new(&[(102, "Muhenkan")]);
    let mut rules: BTreeMap<u16, Rule> = BTreeMap::new();
    let r1 = Some(rule("Muhenkan", "space", "", ""));
    assert_eq!(d.run(|x| change(&mut rules, 102, &r1, x)), Ok(()));
    d.shortcuts.insert("/commands/custom/F20".into(), "other".into());
    let r2 = Some(rule("Muhenkan", "F20", "kitty", "F20"));
    assert_eq!(
        d.run(|x| change(&mut rules, 102, &r2, x)),
        Err("This key already launches another command in XFCE.".into())
    );
    assert_eq!(rules[&102].mapped, "space");
    assert_eq!(d.keys[&102], "space");
}

#[test]
fn reconcile_remaps_only_drifted_keys() {
    let mut d = Desk::new(&[(100, "space"), (101, "yen"), (102, "Muhenkan")]);
    let rules = BTreeMap::from([
        (100, rule("a", "space", "", "")),
        (101, rule("a", "Tab", "", "")),
        (102, rule("a", "BackSpace", "", "")),
    ]);
    assert_eq!(d.run(|x| reconcile(&rules, x)), Ok(2));
    assert_eq!(d.log, vec!["read", "map 101 Tab", "map 102 BackSpace"]);
    d.log.clear();
    assert_eq!(d.run(|x| reconcile(&rules, x)), Ok(0));
    assert_eq!(d.log, vec!["read"]);
}

#[test]
fn reconcile_collects_failures() {
    let mut d = Desk::new(&[(100, "a"), (101, "b")]);
    d.fail_map = Some(100);
    d.shortcuts.insert("/commands/custom/F13".into(), "other".into());
    let rules = BTreeMap::from([
        (100, rule("a", "space", "", "")),
        (101, rule("b", "b", "kitty", "F13")),
    ]);
    assert_eq!(
        d.run(|x| reconcile(&rules, x)),
        Err("keycode 100: xmodmap: bad; keycode 101 shortcut: This key already launches another command in XFCE.".into())
    );
    let replies: Vec<Reply> = vec![Err("no display".into())];
    match reconcile(&rules, &replies) {
        Next::Finish(Err(e)) => assert_eq!(e, "no display"),
        _ => panic!("reconcile should end"),
    }
}

#[test]
fn launcher_symbol_skips_used_symbols() {
    let mut d = Desk::new(&[(20, "F13 F14")]);
    d.shortcuts.insert("/commands/custom/F15".into(), "x".into());
    let current = maps(&d.listing());
    assert_eq!(d.run(|x| launcher_symbol(&current, x)), Ok("F16".to_string()));
}

#[test]
fn compose_rule_cases() {
    let mut d = Desk::new(&[(102, "Muhenkan NoSymbol"), (100, "NoSymbol"), (37, "Control_L"), (65, "space")]);
    let rules: BTreeMap<u16, Rule> = BTreeMap::new();
    let baseline = maps(&d.listing());
    let copy = Target::Key(Some("Tab Tab Tab Tab".into()));
    let r = d.run(|x| compose_rule(&rules, &baseline, 102, &copy, x)).unwrap();
    assert_eq!(r.mapped, "Tab Tab Tab Tab");
    assert_eq!(r.original, "Muhenkan NoSymbol");
    assert_eq!(r.command, "");
    assert_eq!(
        d.run(|x| compose_rule(&rules, &baseline, 102, &Target::Key(None), x)).unwrap_err(),
        "Select a target key"
    );
    assert_eq!(
        d.run(|x| compose_rule(&rules, &baseline, 37, &copy, x)).unwrap_err(),
        "Modifier and lock source keys are not supported. Choose an ordinary key."
    );
    assert_eq!(
        d.run(|x| compose_rule(&rules, &baseline, 5, &copy, x)).unwrap_err(),
        "Unknown physical key"
    );
    let app = Target::App("  kitty \n".into());
    let r = d.run(|x| compose_rule(&rules, &baseline, 102, &app, x)).unwrap();
    assert_eq!((r.command.as_str(), r.shortcut.as_str(), r.mapped.as_str()), ("kitty", "Muhenkan", "Muhenkan NoSymbol"));
    let r = d.run(|x| compose_rule(&rules, &baseline, 100, &app, x)).unwrap();
    assert_eq!((r.shortcut.as_str(), r.mapped.as_str()), ("F13", "F13 F13 F13 F13"));
    assert_eq!(
        d.run(|x| compose_rule(&rules, &baseline, 100, &Target::App(" ".into()), x)).unwrap_err(),
        "Click Search apps to choose an application."
    );
    assert_eq!(
        d.run(|x| compose_rule(&rules, &baseline, 100, &Target::App("a\nb".into()), x)).unwrap_err(),
        "Use a single-line application command."
    );
    let mut d2 = Desk::new(&[(102, "space"), (65, "space")]);
    let base2 = maps(&d2.listing());
    assert_eq!(
        d2.run(|x| compose_rule(&rules, &base2, 102, &app, x)).unwrap_err(),
        "Another key shares this symbol. A launcher would affect both; choose another key."
    );
}
