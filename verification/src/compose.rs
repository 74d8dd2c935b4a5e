//! The rule that the editor builds for a key: either a copy of another
//! key's symbols, or an application launched through a desktop shortcut.

use vstd::prelude::*;
use vstd::string::*;
use std::collections::BTreeMap;
use crate::text::{chars_of, join, same_chars, string_of, trim, trim_of, views, words, words_of};
use crate::rules::{Rule, RuleView, Rules, rules_view};
use crate::keymap::{
    available_launcher_symbol, is_protected, keymap_text, keymap_view, launcher_choice, maps,
    protected,
};
use crate::session::{Act, Answer, Next, Progress, Reply, answer, answers, Action};
use crate::order::{keys_in_order, lemma_keys_from};

verus! {

/// What the key should do.
pub enum Target {
    /// Produce the symbols of another key (`None` when no key is chosen).
    Key(Option<String>),
    /// Launch the command typed in the editor.
    App(String),
}

/// What the key should do, as texts.
pub enum TargetView {
    Key(Option<Seq<char>>),
    App(Seq<char>),
}

impl View for Target {
    type V = TargetView;

    open spec fn view(&self) -> TargetView {
        match self {
            Target::Key(Some(s)) => TargetView::Key(Some(s@)),
            Target::Key(None) => TargetView::Key(None),
            Target::App(c) => TargetView::App(c@),
        }
    }
}

/// The symbols the key has without any rule: its rule's original symbols,
/// or the symbols it had when the editor started.
pub open spec fn known_original(rules: Map<u16, RuleView>, baseline: Map<u16, Seq<char>>, code: u16) -> Option<
    Seq<char>,
> {
    if rules.contains_key(code) {
        Some(rules[code].original)
    } else if baseline.contains_key(code) {
        Some(baseline[code])
    } else {
        None
    }
}

/// Whether some other key than `code` produces `sym`.
pub open spec fn shared_elsewhere(cur: Map<u16, Seq<char>>, code: u16, sym: Seq<char>) -> bool {
    exists|k: u16| #[trigger] cur.contains_key(k) && k != code && words(cur[k]).contains(sym)
}

/// The four-column mapping that produces `sym` on every level.
pub open spec fn four_times(sym: Seq<char>) -> Seq<char> {
    join(seq![sym, sym, sym, sym], ' ')
}

/// The rule for launching `command` through the shortcut symbol `sym`,
/// once the live keymap `cur` is known.
pub open spec fn launch_rule(
    cur: Map<u16, Seq<char>>,
    code: u16,
    original: Seq<char>,
    mapped: Seq<char>,
    command: Seq<char>,
    sym: Seq<char>,
) -> Result<RuleView, Seq<char>> {
    if shared_elsewhere(cur, code, sym) {
        Err("Another key shares this symbol. A launcher would affect both; choose another key."@)
    } else {
        Ok(RuleView { original, mapped, command, shortcut: sym })
    }
}

/// Building the rule for keycode `code`: the live keymap is read; the key
/// must be known and must not be a modifier; a copied key's symbols become
/// the mapping; a command must be one non-empty line, and is launched
/// through the key's own first symbol, or, when it has none, through a free
/// function key that the key then produces on every level; no other key
/// may produce that symbol.
pub open spec fn compose_steps(
    rules: Map<u16, RuleView>,
    baseline: Map<u16, Seq<char>>,
    code: u16,
    target: TargetView,
    rs: Seq<Answer>,
) -> Progress<RuleView> {
    if rs.len() == 0 {
        Progress::Wait(Act::ReadKeymap)
    } else {
        match rs[0] {
            Err(e) => Progress::Done(Err(e), 1),
            Ok(listing) => {
                let cur = keymap_text(listing);
                match known_original(rules, baseline, code) {
                    None => Progress::Done(Err("Unknown physical key"@), 1),
                    Some(original) => if is_protected(original) {
                        Progress::Done(
                            Err(
                                "Modifier and lock source keys are not supported. Choose an ordinary key."@,
                            ),
                            1,
                        )
                    } else {
                        match target {
                            TargetView::Key(None) => Progress::Done(Err("Select a target key"@), 1),
                            TargetView::Key(Some(m)) => Progress::Done(
                                Ok(
                                    RuleView {
                                        original,
                                        mapped: m,
                                        command: seq![],
                                        shortcut: seq![],
                                    },
                                ),
                                1,
                            ),
                            TargetView::App(raw) => {
                                let command = trim(raw);
                                if command.len() == 0 {
                                    Progress::Done(
                                        Err("Click Search apps to choose an application."@),
                                        1,
                                    )
                                } else if command.contains('\n') {
                                    Progress::Done(Err("Use a single-line application command."@), 1)
                                } else if words(original).len() > 0 && words(original)[0]
                                    != "NoSymbol"@ {
                                    Progress::Done(
                                        launch_rule(
                                            cur,
                                            code,
                                            original,
                                            original,
                                            command,
                                            words(original)[0],
                                        ),
                                        1,
                                    )
                                } else if rs.len() == 1 {
                                    Progress::Wait(Act::ListShortcuts)
                                } else {
                                    match rs[1] {
                                        Err(e) => Progress::Done(Err(e), 2),
                                        Ok(bindings) => match launcher_choice(cur, bindings) {
                                            Err(e) => Progress::Done(Err(e), 2),
                                            Ok(sym) => Progress::Done(
                                                launch_rule(
                                                    cur,
                                                    code,
                                                    original,
                                                    four_times(sym),
                                                    command,
                                                    sym,
                                                ),
                                                2,
                                            ),
                                        },
                                    }
                                }
                            },
                        }
                    },
                }
            },
        }
    }
}

/// The symbols the key has without any rule.
pub fn original_symbols(rules: &Rules, baseline: &BTreeMap<u16, String>, code: u16) -> (o: Option<String>)
    ensures
        match o {
            Some(s) => known_original(rules_view(rules@), keymap_view(baseline@), code) == Some(s@),
            None => known_original(rules_view(rules@), keymap_view(baseline@), code) is None,
        },
{
    match rules.get(&code) {
        Some(r) => Some(r.original.clone()),
        None => match baseline.get(&code) {
            Some(b) => Some(b.clone()),
            None => None,
        },
    }
}

/// Whether `next` is what building a rule calls for.
pub open spec fn next_agrees_rule(next: Next<Rule>, p: Progress<RuleView>) -> bool {
    match next {
        Next::Perform(a) => p == Progress::<RuleView>::Wait(a@),
        Next::Finish(Ok(r)) => p is Done && p->Done_0 == Ok::<RuleView, Seq<char>>(r@),
        Next::Finish(Err(e)) => p is Done && p->Done_0 == Err::<RuleView, Seq<char>>(e@),
    }
}

/// Whether some other key than `code` produces `sym`.
#[verifier::loop_isolation(false)]
fn shared_elsewhere_of(current: &BTreeMap<u16, String>, code: u16, sym: &Vec<char>) -> (b: bool)
    ensures
        b == shared_elsewhere(keymap_view(current@), code, sym@),
{
    let ks = keys_in_order(current);
    proof {
        lemma_keys_from(current@.dom(), 0);
    }
    let ghost cur = keymap_view(current@);
    for j in 0..ks.len()
        invariant
            cur == keymap_view(current@),
            forall|x: u16| #[trigger] ks@.contains(x) <==> current@.contains_key(x),
            forall|m: int| 0 <= m < j ==> ks@[m] == code || !words(cur[ks@[m]]).contains(sym@),
    {
        let k = ks[j];
        assert(ks@.contains(k));
        if k != code {
            let v = current.get(&k).unwrap();
            let ws = words_of(&chars_of(v.as_str()));
            for t in 0..ws.len()
                invariant
                    views(ws@) == words(cur[k]),
                    forall|m: int| 0 <= m < t ==> views(ws@)[m] != sym@,
            {
                assert(views(ws@)[t as int] == ws@[t as int]@);
                if same_chars(&ws[t], sym) {
                    assert(words(cur[k])[t as int] == sym@);
                    assert(cur.contains_key(k) && k != code && words(cur[k]).contains(sym@));
                    return true;
                }
            }
            proof {
                if words(cur[k]).contains(sym@) {
                    let t = choose|t: int| 0 <= t < words(cur[k]).len() && words(cur[k])[t] == sym@;
                    assert(views(ws@)[t] == sym@);
                }
            }
        }
    }
    proof {
        assert forall|k: u16| #[trigger] cur.contains_key(k) && k != code implies !words(cur[k]).contains(sym@) by {
            assert(ks@.contains(k));
            let m = choose|m: int| 0 <= m < ks@.len() && ks@[m] == k;
        }
    }
    false
}

/// The rule for launching `command` through `sym`.
fn launch_rule_of(
    current: &BTreeMap<u16, String>,
    code: u16,
    original: String,
    mapped: String,
    command: String,
    sym: Vec<char>,
) -> (r: Result<Rule, String>)
    ensures
        match r {
            Ok(rule) => launch_rule(keymap_view(current@), code, original@, mapped@, command@, sym@)
                == Ok::<RuleView, Seq<char>>(rule@),
            Err(e) => launch_rule(keymap_view(current@), code, original@, mapped@, command@, sym@)
                == Err::<RuleView, Seq<char>>(e@),
        },
{
    if shared_elsewhere_of(current, code, &sym) {
        Err("Another key shares this symbol. A launcher would affect both; choose another key.".to_owned())
    } else {
        Ok(Rule { original, mapped, command, shortcut: string_of(&sym) })
    }
}

/// A computed rule result as the caller's next move.
fn finish_rule(r: Result<Rule, String>) -> (next: Next<Rule>)
    ensures
        next == Next::Finish(r),
{
    Next::Finish(r)
}

/// Builds the rule for keycode `code`, given the saved rules, the keymap
/// when the editor started, the chosen target, and the replies so far.
pub fn compose_rule(
    rules: &Rules,
    baseline: &BTreeMap<u16, String>,
    code: u16,
    target: &Target,
    replies: &Vec<Reply>,
) -> (next: Next<Rule>)
    ensures
        next_agrees_rule(
            next,
            compose_steps(
                rules_view(rules@),
                keymap_view(baseline@),
                code,
                target@,
                answers(replies@),
            ),
        ),
{
    let ghost rs = answers(replies@);
    if replies.len() == 0 {
        return Next::Perform(Action::ReadKeymap);
    }
    assert(rs[0] == answer(replies@[0]));
    let listing = match &replies[0] {
        Err(e) => return Next::Finish(Err(e.clone())),
        Ok(l) => l,
    };
    let current = maps(listing.as_str());
    let original: String = match original_symbols(rules, baseline, code) {
        Some(o) => o,
        None => return Next::Finish(Err("Unknown physical key".to_owned())),
    };
    if protected(original.as_str()) {
        return Next::Finish(
            Err("Modifier and lock source keys are not supported. Choose an ordinary key.".to_owned()),
        );
    }
    match target {
        Target::Key(None) => Next::Finish(Err("Select a target key".to_owned())),
        Target::Key(Some(m)) => Next::Finish(
            Ok(Rule { original, mapped: m.clone(), command: String::new(), shortcut: String::new() }),
        ),
        Target::App(raw) => {
            let command_chars = trim_of(&chars_of(raw.as_str()));
            if command_chars.len() == 0 {
                return Next::Finish(Err("Click Search apps to choose an application.".to_owned()));
            }
            let mut has_break = false;
            for i in 0..command_chars.len()
                invariant
                    !has_break ==> forall|j: int| 0 <= j < i ==> command_chars@[j] != '\n',
                    has_break ==> command_chars@.contains('\n'),
            {
                if command_chars[i] == '\n' {
                    has_break = true;
                }
            }
            if has_break {
                return Next::Finish(Err("Use a single-line application command.".to_owned()));
            }
            let command = string_of(&command_chars);
            let ws = words_of(&chars_of(original.as_str()));
            let nosym = chars_of("NoSymbol");
            if ws.len() > 0 && !same_chars(&ws[0], &nosym) {
                assert(views(ws@)[0] == ws@[0]@);
                let sym = ws[0].clone();
                let mapped = original.clone();
                return finish_rule(launch_rule_of(&current, code, original, mapped, command, sym));
            }
            assert(ws@.len() > 0 ==> views(ws@)[0] == ws@[0]@);
            if replies.len() == 1 {
                return Next::Perform(Action::ListShortcuts);
            }
            assert(rs[1] == answer(replies@[1]));
            match &replies[1] {
                Err(e) => Next::Finish(Err(e.clone())),
                Ok(bindings) => match available_launcher_symbol(&current, bindings.as_str()) {
                    Err(e) => Next::Finish(Err(e)),
                    Ok(sym) => {
                        let s = chars_of(sym.as_str());
                        let mut mapped = sym.clone();
                        mapped.append(" ");
                        mapped.append(sym.as_str());
                        mapped.append(" ");
                        mapped.append(sym.as_str());
                        mapped.append(" ");
                        mapped.append(sym.as_str());
                        proof {
                            reveal_strlit(" ");
                            let a = sym@;
                            let q = seq![a, a, a, a];
                            assert(q.drop_last().drop_last().drop_last() =~= seq![a]);
                            assert(q.drop_last().drop_last() =~= seq![a, a]);
                            assert(q.drop_last() =~= seq![a, a, a]);
                            assert(join(seq![a], ' ') == a);
                            assert(seq![a, a].drop_last() =~= seq![a]);
                            assert(join(seq![a, a], ' ') == a + seq![' '] + a);
                            assert(seq![a, a, a].drop_last() =~= seq![a, a]);
                            assert(join(seq![a, a, a], ' ') == a + seq![' '] + a + seq![' '] + a);
                            assert(join(q, ' ') == a + seq![' '] + a + seq![' '] + a + seq![' '] + a);
                            assert(mapped@ =~= four_times(sym@));
                        }
                        finish_rule(launch_rule_of(&current, code, original, mapped, command, s))
                    },
                },
            }
        },
    }
}


/// A key's symbols are known when it has a rule (its original symbols) or
/// the starting keymap lists it (those symbols, even none at all).
pub proof fn law_known_original(rules: Map<u16, RuleView>, baseline: Map<u16, Seq<char>>, code: u16)
    ensures
        known_original(rules, baseline, code) is Some <==> (rules.contains_key(code)
            || baseline.contains_key(code)),
        rules.contains_key(code) ==> known_original(rules, baseline, code) == Some(
            rules[code].original,
        ),
        !rules.contains_key(code) && baseline.contains_key(code) ==> known_original(
            rules,
            baseline,
            code,
        ) == Some(baseline[code]),
{
}

/// Copying a chosen key onto a known key that is no modifier gives the rule
/// from the key's known symbols to the chosen symbols, with no command,
/// after reading the keymap once.
pub proof fn law_compose_copies_key(
    rules: Map<u16, RuleView>,
    baseline: Map<u16, Seq<char>>,
    code: u16,
    mapped: Seq<char>,
    rs: Seq<Answer>,
)
    requires
        known_original(rules, baseline, code) is Some,
        !is_protected(known_original(rules, baseline, code)->Some_0),
        rs.len() >= 1,
        rs[0] is Ok,
    ensures
        compose_steps(rules, baseline, code, TargetView::Key(Some(mapped)), rs) == Progress::<
            RuleView,
        >::Done(
            Ok(
                RuleView {
                    original: known_original(rules, baseline, code)->Some_0,
                    mapped,
                    command: seq![],
                    shortcut: seq![],
                },
            ),
            1,
        ),
{
}

/// Once the keymap is read, a key is refused as unknown only when it has
/// no rule and the starting keymap does not list it.
pub proof fn law_compose_unknown_only_unlisted(
    rules: Map<u16, RuleView>,
    baseline: Map<u16, Seq<char>>,
    code: u16,
    target: TargetView,
    rs: Seq<Answer>,
    n: nat,
)
    requires
        rs.len() == 1,
        rs[0] is Ok,
        compose_steps(rules, baseline, code, target, rs) == Progress::<RuleView>::Done(
            Err("Unknown physical key"@),
            n,
        ),
    ensures
        !rules.contains_key(code),
        !baseline.contains_key(code),
{
    reveal_strlit("Unknown physical key");
    reveal_strlit("Select a target key");
    reveal_strlit("Modifier and lock source keys are not supported. Choose an ordinary key.");
    reveal_strlit("Click Search apps to choose an application.");
    reveal_strlit("Use a single-line application command.");
    reveal_strlit("Another key shares this symbol. A launcher would affect both; choose another key.");
    let u = "Unknown physical key"@;
    assert(u.len() == 20);
    assert("Select a target key"@.len() == 19);
    assert("Click Search apps to choose an application."@.len() != 20);
    assert("Use a single-line application command."@.len() != 20);
    assert("Modifier and lock source keys are not supported. Choose an ordinary key."@.len() != 20);
    assert("Another key shares this symbol. A launcher would affect both; choose another key."@.len()
        != 20);
    if rules.contains_key(code) || baseline.contains_key(code) {
        let o = known_original(rules, baseline, code)->Some_0;
        assert(known_original(rules, baseline, code) == Some(o));
        let cur = keymap_text(rs[0]->Ok_0);
        match target {
            TargetView::Key(_) => {},
            TargetView::App(raw) => {
                if !is_protected(o) && trim(raw).len() != 0 && !trim(raw).contains('\n') {
                    if words(o).len() > 0 && words(o)[0] != "NoSymbol"@ {
                        let r = launch_rule(cur, code, o, o, trim(raw), words(o)[0]);
                        assert(r != Err::<RuleView, Seq<char>>(u));
                    }
                }
            },
        }
    }
}

/// No rule is ever built for a modifier or lock key.
pub proof fn law_compose_refuses_modifiers(
    rules: Map<u16, RuleView>,
    baseline: Map<u16, Seq<char>>,
    code: u16,
    target: TargetView,
    rs: Seq<Answer>,
)
    requires
        known_original(rules, baseline, code) matches Some(o) && is_protected(o),
    ensures
        !(compose_steps(rules, baseline, code, target, rs) matches Progress::Done(Ok(_), _)),
{
}

} // verus!
