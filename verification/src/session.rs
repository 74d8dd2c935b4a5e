//! The decisions of applying, restoring, changing and reconciling saved
//! mappings.  Each operation is a sequence of outside actions (running
//! `xmodmap` or `xfconf-query`, writing the rules file); the functions here
//! take the replies received so far and say which action comes next, or
//! how the operation ends.  The caller performs each action and appends its
//! reply.

use vstd::prelude::*;
use vstd::string::*;
use crate::text::{decimal, decimal_of, string_of};
use crate::rules::{Rule, RuleView, Rules, decode_text, encode, encode_rules, law_decode_encode, rules_view};
use crate::keymap::{
    available_launcher_symbol, drifted, drifted_keycodes, keymap_text, keymap_view,
    launcher_choice, law_drifted_exactly, maps, property, property_text,
};
use crate::order::{keys_in_order, lemma_keys_from, sorted_keys};

verus! {

/// An outside action, as texts.
pub enum Act {
    ReadKeymap,
    SetMapping(u16, Seq<char>),
    QueryShortcut(Seq<char>),
    RemoveShortcut(Seq<char>),
    CreateShortcut(Seq<char>, Seq<char>),
    ListShortcuts,
    SaveRules(Seq<char>),
}

/// An outside action for the caller to perform.
pub enum Action {
    /// List the live keymap (`xmodmap -pke`); the reply is the listing.
    ReadKeymap,
    /// Give a keycode new key symbols (`xmodmap -e`, with the expression
    /// that `mapping_expression` writes).
    SetMapping { keycode: u16, symbols: String },
    /// Read the command of a desktop-shortcut property; an error reply
    /// means that the property is not set.
    QueryShortcut { property: String },
    /// Remove a desktop-shortcut property.
    RemoveShortcut { property: String },
    /// Create a desktop-shortcut property that launches `command`.
    CreateShortcut { property: String, command: String },
    /// List all desktop-shortcut bindings (`xfconf-query -lv`).
    ListShortcuts,
    /// Write the rules file with this text.
    SaveRules { text: String },
}

impl View for Action {
    type V = Act;

    open spec fn view(&self) -> Act {
        match self {
            Action::ReadKeymap => Act::ReadKeymap,
            Action::SetMapping { keycode, symbols } => Act::SetMapping(*keycode, symbols@),
            Action::QueryShortcut { property } => Act::QueryShortcut(property@),
            Action::RemoveShortcut { property } => Act::RemoveShortcut(property@),
            Action::CreateShortcut { property, command } => Act::CreateShortcut(property@, command@),
            Action::ListShortcuts => Act::ListShortcuts,
            Action::SaveRules { text } => Act::SaveRules(text@),
        }
    }
}

/// The reply to an action: its output, or its error message.
pub type Reply = Result<String, String>;

/// A reply as texts.
pub type Answer = Result<Seq<char>, Seq<char>>;

/// A reply as texts.
pub open spec fn answer(r: Reply) -> Answer {
    match r {
        Ok(s) => Ok(s@),
        Err(e) => Err(e@),
    }
}

/// Replies as texts.
pub open spec fn answers(rs: Seq<Reply>) -> Seq<Answer> {
    rs.map_values(|r: Reply| answer(r))
}

/// Where an operation stands after some replies: it waits for the reply to
/// an action, or it has ended with a result after reading the first `n`
/// replies.
pub enum Progress<T> {
    Wait(Act),
    Done(Result<T, Seq<char>>, nat),
}

/// What the caller does next.
pub enum Next<T> {
    /// Perform the action and append its reply.
    Perform(Action),
    /// The operation has ended.
    Finish(Result<T, String>),
}

/// Whether `next` is what the operation's progress calls for.
pub open spec fn next_agrees(next: Next<()>, p: Progress<()>) -> bool {
    match next {
        Next::Perform(a) => p == Progress::<()>::Wait(a@),
        Next::Finish(Ok(())) => p is Done && p->Done_0 == Ok::<(), Seq<char>>(()),
        Next::Finish(Err(e)) => p is Done && p->Done_0 == Err::<(), Seq<char>>(e@),
    }
}

/// The result of an action whose output does not matter.
pub open spec fn outcome(a: Answer) -> Result<(), Seq<char>> {
    match a {
        Ok(_) => Ok(()),
        Err(e) => Err(e),
    }
}

/// The message when a key's shortcut symbol already launches something else.
pub open spec fn taken_text() -> Seq<char> {
    "This key already launches another command in XFCE."@
}

/// The message when a shortcut was changed by someone else.
pub open spec fn changed_outside_text() -> Seq<char> {
    "Shortcut was changed outside this app; preserve it and resolve the conflict first."@
}

/// The message when the live keymap does not list the keycode.
pub open spec fn unknown_keycode_text() -> Seq<char> {
    "Unknown keycode"@
}

/// The message when undoing a failed mapping failed too.
pub open spec fn rollback_text(e: Seq<char>, rb: Seq<char>) -> Seq<char> {
    e + "; restoring the previous mapping also failed: "@ + rb
}

/// Binding a rule's command to its shortcut symbol: nothing to do without a
/// command; done when the property already launches the command; refused
/// when it launches something else; otherwise the property is created.
pub open spec fn set_shortcut_steps(r: RuleView, rs: Seq<Answer>) -> Progress<()> {
    let prop = property_text(r.shortcut);
    if r.command.len() == 0 {
        Progress::Done(Ok(()), 0)
    } else if rs.len() == 0 {
        Progress::Wait(Act::QueryShortcut(prop))
    } else {
        match rs[0] {
            Ok(v) => if v == r.command {
                Progress::Done(Ok(()), 1)
            } else {
                Progress::Done(Err(taken_text()), 1)
            },
            Err(_) => if rs.len() == 1 {
                Progress::Wait(Act::CreateShortcut(prop, r.command))
            } else {
                Progress::Done(outcome(rs[1]), 2)
            },
        }
    }
}

/// Unbinding a rule's shortcut: nothing to do without a command or when
/// the property is not set; the property is removed when it still launches
/// the command; refused when it launches something else.
pub open spec fn remove_shortcut_steps(r: RuleView, rs: Seq<Answer>) -> Progress<()> {
    let prop = property_text(r.shortcut);
    if r.command.len() == 0 {
        Progress::Done(Ok(()), 0)
    } else if rs.len() == 0 {
        Progress::Wait(Act::QueryShortcut(prop))
    } else {
        match rs[0] {
            Err(_) => Progress::Done(Ok(()), 1),
            Ok(v) => if v == r.command {
                if rs.len() == 1 {
                    Progress::Wait(Act::RemoveShortcut(prop))
                } else {
                    Progress::Done(outcome(rs[1]), 2)
                }
            } else {
                Progress::Done(Err(changed_outside_text()), 1)
            },
        }
    }
}

/// Undoing a rule on keycode `k`: its shortcut is unbound, then the key
/// gets its original symbols back.
pub open spec fn restore_steps(k: u16, r: RuleView, rs: Seq<Answer>) -> Progress<()> {
    match remove_shortcut_steps(r, rs) {
        Progress::Wait(a) => Progress::Wait(a),
        Progress::Done(Err(e), n) => Progress::Done(Err(e), n),
        Progress::Done(Ok(()), n) => if rs.len() == n {
            Progress::Wait(Act::SetMapping(k, r.original))
        } else {
            Progress::Done(outcome(rs[n as int]), n + 1)
        },
    }
}

/// Putting a rule on keycode `k` in force: the live keymap is read for the
/// key's present symbols, the key is remapped, and the shortcut is bound;
/// when binding fails, the key gets its previous symbols back.
pub open spec fn apply_steps(k: u16, r: RuleView, rs: Seq<Answer>) -> Progress<()> {
    if rs.len() == 0 {
        Progress::Wait(Act::ReadKeymap)
    } else {
        match rs[0] {
            Err(e) => Progress::Done(Err(e), 1),
            Ok(listing) => {
                let cur = keymap_text(listing);
                if !cur.contains_key(k) {
                    Progress::Done(Err(unknown_keycode_text()), 1)
                } else if rs.len() == 1 {
                    Progress::Wait(Act::SetMapping(k, r.mapped))
                } else {
                    match rs[1] {
                        Err(e) => Progress::Done(Err(e), 2),
                        Ok(_) => {
                            let rest = rs.skip(2);
                            match set_shortcut_steps(r, rest) {
                                Progress::Wait(a) => Progress::Wait(a),
                                Progress::Done(Ok(()), n) => Progress::Done(Ok(()), 2 + n),
                                Progress::Done(Err(e), n) => if rest.len() == n {
                                    Progress::Wait(Act::SetMapping(k, cur[k]))
                                } else {
                                    match rest[n as int] {
                                        Ok(_) => Progress::Done(Err(e), 3 + n),
                                        Err(rb) => Progress::Done(Err(rollback_text(e, rb)), 3 + n),
                                    }
                                },
                            }
                        },
                    }
                }
            },
        }
    }
}



/// The rules after the change: the new rule on `k`, or none.
pub open spec fn updated_rules(m: Map<u16, RuleView>, k: u16, new: Option<RuleView>) -> Map<
    u16,
    RuleView,
> {
    match new {
        Some(r) => m.insert(k, r),
        None => m.remove(k),
    }
}

/// Changing the rule on `k` from what `m` holds to `new`: the old rule is
/// undone, the new one put in force (on failure the old one is put back in
/// force), and the rules file is written; when writing fails, the new rule
/// is undone and the old one put back in force.
pub open spec fn change_steps(
    m: Map<u16, RuleView>,
    k: u16,
    new: Option<RuleView>,
    rs: Seq<Answer>,
) -> Progress<()> {
    if m.contains_key(k) {
        match restore_steps(k, m[k], rs) {
            Progress::Wait(a) => Progress::Wait(a),
            Progress::Done(Err(e), n) => Progress::Done(Err(e), n),
            Progress::Done(Ok(()), n) => change_apply_steps(m, k, new, rs, n),
        }
    } else {
        change_apply_steps(m, k, new, rs, 0)
    }
}

/// The change, once the old rule is undone, after `at` replies.
pub open spec fn change_apply_steps(
    m: Map<u16, RuleView>,
    k: u16,
    new: Option<RuleView>,
    rs: Seq<Answer>,
    at: nat,
) -> Progress<()> {
    match new {
        None => change_save_steps(m, k, new, rs, at),
        Some(r) => match apply_steps(k, r, rs.skip(at as int)) {
            Progress::Wait(a) => Progress::Wait(a),
            Progress::Done(Ok(()), n) => change_save_steps(m, k, new, rs, at + n),
            Progress::Done(Err(e), n) => if m.contains_key(k) {
                match apply_steps(k, m[k], rs.skip((at + n) as int)) {
                    Progress::Wait(a) => Progress::Wait(a),
                    Progress::Done(_, n2) => Progress::Done(Err(e), at + n + n2),
                }
            } else {
                Progress::Done(Err(e), at + n)
            },
        },
    }
}

/// The change, once the new rule is in force, after `at` replies.
pub open spec fn change_save_steps(
    m: Map<u16, RuleView>,
    k: u16,
    new: Option<RuleView>,
    rs: Seq<Answer>,
    at: nat,
) -> Progress<()> {
    if rs.len() <= at {
        Progress::Wait(Act::SaveRules(encode_rules(updated_rules(m, k, new))))
    } else {
        match rs[at as int] {
            Ok(_) => Progress::Done(Ok(()), at + 1),
            Err(e) => change_undo_steps(m, k, new, e, rs, at + 1),
        }
    }
}

/// Going back after the rules file could not be written, after `at`
/// replies: the new rule is undone, then the old one put back in force;
/// their own results do not matter.
pub open spec fn change_undo_steps(
    m: Map<u16, RuleView>,
    k: u16,
    new: Option<RuleView>,
    e: Seq<char>,
    rs: Seq<Answer>,
    at: nat,
) -> Progress<()> {
    match new {
        Some(r) => match restore_steps(k, r, rs.skip(at as int)) {
            Progress::Wait(a) => Progress::Wait(a),
            Progress::Done(_, n) => change_reapply_steps(m, k, e, rs, at + n),
        },
        None => change_reapply_steps(m, k, e, rs, at),
    }
}

/// Putting the old rule back in force, after `at` replies.
pub open spec fn change_reapply_steps(
    m: Map<u16, RuleView>,
    k: u16,
    e: Seq<char>,
    rs: Seq<Answer>,
    at: nat,
) -> Progress<()> {
    if m.contains_key(k) {
        match apply_steps(k, m[k], rs.skip(at as int)) {
            Progress::Wait(a) => Progress::Wait(a),
            Progress::Done(_, n) => Progress::Done(Err(e), at + n),
        }
    } else {
        Progress::Done(Err(e), at)
    }
}

/// An optional rule as texts.
pub open spec fn rule_option_view(r: Option<Rule>) -> Option<RuleView> {
    match r {
        Some(r) => Some(r@),
        None => None,
    }
}



/// The message of a key that could not be remapped.
pub open spec fn keycode_error_text(k: u16, e: Seq<char>) -> Seq<char> {
    "keycode "@ + decimal(k as nat) + ": "@ + e
}

/// The message of a key whose shortcut could not be bound.
pub open spec fn shortcut_error_text(k: u16, e: Seq<char>) -> Seq<char> {
    "keycode "@ + decimal(k as nat) + " shortcut: "@ + e
}

/// Messages joined with `sep` between them.
pub open spec fn join_text(ms: Seq<Seq<char>>, sep: Seq<char>) -> Seq<char>
    decreases ms.len(),
{
    if ms.len() == 0 {
        seq![]
    } else if ms.len() == 1 {
        ms[0]
    } else {
        join_text(ms.drop_last(), sep) + sep + ms.last()
    }
}

/// Whether `next` is what a counting operation's progress calls for.
pub open spec fn next_agrees_count(next: Next<usize>, p: Progress<nat>) -> bool {
    match next {
        Next::Perform(a) => p == Progress::<nat>::Wait(a@),
        Next::Finish(Ok(c)) => p is Done && p->Done_0 == Ok::<nat, Seq<char>>(c as nat),
        Next::Finish(Err(e)) => p is Done && p->Done_0 == Err::<nat, Seq<char>>(e@),
    }
}

/// Reconciling from the `i`-th rule in key order, after `at` replies, with
/// `changed` keys remapped and `errors` collected so far: a drifted key is
/// remapped, then every rule's shortcut is bound; failures are collected,
/// not stopped at.
pub open spec fn reconcile_from(
    m: Map<u16, RuleView>,
    d: Seq<u16>,
    ks: Seq<u16>,
    i: int,
    rs: Seq<Answer>,
    at: nat,
    changed: nat,
    errors: Seq<Seq<char>>,
) -> Progress<nat>
    decreases ks.len() - i,
{
    if i < 0 || i >= ks.len() {
        if errors.len() == 0 {
            Progress::Done(Ok(changed), at)
        } else {
            Progress::Done(Err(join_text(errors, "; "@)), at)
        }
    } else {
        let k = ks[i];
        let r = m[k];
        if d.contains(k) && rs.len() <= at {
            Progress::Wait(Act::SetMapping(k, r.mapped))
        } else {
            let (at1, changed1, errors1) = if d.contains(k) {
                match rs[at as int] {
                    Ok(_) => (at + 1, changed + 1, errors),
                    Err(e) => (at + 1, changed, errors.push(keycode_error_text(k, e))),
                }
            } else {
                (at, changed, errors)
            };
            match set_shortcut_steps(r, rs.skip(at1 as int)) {
                Progress::Wait(a) => Progress::Wait(a),
                Progress::Done(res, n) => reconcile_from(
                    m,
                    d,
                    ks,
                    i + 1,
                    rs,
                    (at1 + n) as nat,
                    changed1,
                    match res {
                        Ok(()) => errors1,
                        Err(e) => errors1.push(shortcut_error_text(k, e)),
                    },
                ),
            }
        }
    }
}

/// Bringing the live keymap back in line with the rules: the keymap is
/// read, every drifted key is remapped and every shortcut bound, in key
/// order; the result counts the remapped keys, or joins every failure.
pub open spec fn reconcile_steps(m: Map<u16, RuleView>, rs: Seq<Answer>) -> Progress<nat> {
    if rs.len() == 0 {
        Progress::Wait(Act::ReadKeymap)
    } else {
        match rs[0] {
            Err(e) => Progress::Done(Err(e), 1),
            Ok(listing) => reconcile_from(
                m,
                drifted(keymap_text(listing), m),
                sorted_keys(m.dom()),
                0,
                rs,
                1,
                0,
                seq![],
            ),
        }
    }
}


/// Picking a free launcher symbol: the desktop shortcuts are listed, and
/// the first function key from `F13` to `F35` that is in use neither in
/// the keymap nor among the shortcuts is chosen.
pub open spec fn launcher_steps(current: Map<u16, Seq<char>>, rs: Seq<Answer>) -> Progress<Seq<char>> {
    if rs.len() == 0 {
        Progress::Wait(Act::ListShortcuts)
    } else {
        match rs[0] {
            Err(e) => Progress::Done(Err(e), 1),
            Ok(bindings) => Progress::Done(launcher_choice(current, bindings), 1),
        }
    }
}

/// Whether `next` is what an operation that ends with a text calls for.
pub open spec fn next_agrees_text(next: Next<String>, p: Progress<Seq<char>>) -> bool {
    match next {
        Next::Perform(a) => p == Progress::<Seq<char>>::Wait(a@),
        Next::Finish(Ok(t)) => p is Done && p->Done_0 == Ok::<Seq<char>, Seq<char>>(t@),
        Next::Finish(Err(e)) => p is Done && p->Done_0 == Err::<Seq<char>, Seq<char>>(e@),
    }
}

/// The `xmodmap` expression that gives keycode `k` the symbols `s`.
pub open spec fn mapping_text(k: u16, s: Seq<char>) -> Seq<char> {
    "keycode "@ + decimal(k as nat) + " = "@ + s
}

/// Where an operation stands, as the functions below compute it.
enum Step {
    Wait(Action),
    Done(Result<(), String>, usize),
}

/// A computed step as progress.
spec fn step_view(s: Step) -> Progress<()> {
    match s {
        Step::Wait(a) => Progress::Wait(a@),
        Step::Done(Ok(()), n) => Progress::Done(Ok(()), n as nat),
        Step::Done(Err(e), n) => Progress::Done(Err(e@), n as nat),
    }
}

/// The next move of the caller for a computed step.
fn to_next(s: Step) -> (next: Next<()>)
    ensures
        next_agrees(next, step_view(s)),
{
    match s {
        Step::Wait(a) => Next::Perform(a),
        Step::Done(r, _) => Next::Finish(r),
    }
}

/// A computed result, as texts.
spec fn result_view(r: Result<(), String>) -> Result<(), Seq<char>> {
    match r {
        Ok(()) => Ok(()),
        Err(e) => Err(e@),
    }
}

/// The result of a reply whose output does not matter.
fn outcome_of(r: &Reply) -> (o: Result<(), String>)
    ensures
        result_view(o) == outcome(answer(*r)),
{
    match r {
        Ok(_) => Ok(()),
        Err(e) => Err(e.clone()),
    }
}

/// Binding the shortcut, reading the replies from position `at` on.
fn set_shortcut_step(r: &Rule, rs: &Vec<Reply>, at: usize) -> (s: Step)
    requires
        at <= rs@.len(),
    ensures
        step_view(s) == set_shortcut_steps(r@, answers(rs@).skip(at as int)),
        s matches Step::Done(_, n) ==> at + n <= rs.len(),
{
    let ghost a = answers(rs@).skip(at as int);
    if r.command.as_str().is_empty() {
        return Step::Done(Ok(()), 0);
    }
    if at == rs.len() {
        return Step::Wait(Action::QueryShortcut { property: property(r.shortcut.as_str()) });
    }
    assert(a[0] == answer(rs@[at as int]));
    match &rs[at] {
        Ok(v) => {
            if *v == r.command {
                Step::Done(Ok(()), 1)
            } else {
                Step::Done(Err("This key already launches another command in XFCE.".to_owned()), 1)
            }
        },
        Err(_) => {
            if at + 1 == rs.len() {
                Step::Wait(
                    Action::CreateShortcut {
                        property: property(r.shortcut.as_str()),
                        command: r.command.clone(),
                    },
                )
            } else {
                assert(a[1] == answer(rs@[at + 1]));
                Step::Done(outcome_of(&rs[at + 1]), 2)
            }
        },
    }
}

/// Unbinding the shortcut, reading the replies from position `at` on.
fn remove_shortcut_step(r: &Rule, rs: &Vec<Reply>, at: usize) -> (s: Step)
    requires
        at <= rs@.len(),
    ensures
        step_view(s) == remove_shortcut_steps(r@, answers(rs@).skip(at as int)),
        s matches Step::Done(_, n) ==> at + n <= rs.len(),
{
    let ghost a = answers(rs@).skip(at as int);
    if r.command.as_str().is_empty() {
        return Step::Done(Ok(()), 0);
    }
    if at == rs.len() {
        return Step::Wait(Action::QueryShortcut { property: property(r.shortcut.as_str()) });
    }
    assert(a[0] == answer(rs@[at as int]));
    match &rs[at] {
        Err(_) => Step::Done(Ok(()), 1),
        Ok(v) => {
            if *v == r.command {
                if at + 1 == rs.len() {
                    Step::Wait(Action::RemoveShortcut { property: property(r.shortcut.as_str()) })
                } else {
                    assert(a[1] == answer(rs@[at + 1]));
                    Step::Done(outcome_of(&rs[at + 1]), 2)
                }
            } else {
                Step::Done(
                    Err(
                        "Shortcut was changed outside this app; preserve it and resolve the conflict first.".to_owned(),
                    ),
                    1,
                )
            }
        },
    }
}

/// Undoing a rule, reading the replies from position `at` on.
fn restore_step(k: u16, r: &Rule, rs: &Vec<Reply>, at: usize) -> (s: Step)
    requires
        at <= rs@.len(),
    ensures
        step_view(s) == restore_steps(k, r@, answers(rs@).skip(at as int)),
        s matches Step::Done(_, n) ==> at + n <= rs.len(),
{
    let ghost a = answers(rs@).skip(at as int);
    let st = remove_shortcut_step(r, rs, at);
    match st {
        Step::Wait(act) => Step::Wait(act),
        Step::Done(Err(e), n) => Step::Done(Err(e), n),
        Step::Done(Ok(()), n) => {
            if at + n == rs.len() {
                Step::Wait(Action::SetMapping { keycode: k, symbols: r.original.clone() })
            } else {
                assert(a[n as int] == answer(rs@[at + n]));
                Step::Done(outcome_of(&rs[at + n]), n + 1)
            }
        },
    }
}

/// Putting a rule in force, reading the replies from position `at` on.
fn apply_step(k: u16, r: &Rule, rs: &Vec<Reply>, at: usize) -> (s: Step)
    requires
        at <= rs@.len(),
    ensures
        step_view(s) == apply_steps(k, r@, answers(rs@).skip(at as int)),
        s matches Step::Done(_, n) ==> at + n <= rs.len(),
{
    let ghost a = answers(rs@).skip(at as int);
    if at == rs.len() {
        return Step::Wait(Action::ReadKeymap);
    }
    assert(a[0] == answer(rs@[at as int]));
    let listing = match &rs[at] {
        Err(e) => return Step::Done(Err(e.clone()), 1),
        Ok(listing) => listing,
    };
    let cur = maps(listing.as_str());
    let ghost curv = keymap_text(listing@);
    assert(keymap_view(cur@).contains_key(k) == cur@.contains_key(k));
    let prev = match cur.get(&k) {
        None => return Step::Done(Err("Unknown keycode".to_owned()), 1),
        Some(prev) => prev,
    };
    assert(curv[k] == prev@);
    if at + 1 == rs.len() {
        return Step::Wait(Action::SetMapping { keycode: k, symbols: r.mapped.clone() });
    }
    assert(a[1] == answer(rs@[at + 1]));
    if let Err(e) = &rs[at + 1] {
        return Step::Done(Err(e.clone()), 2);
    }
    assert(a.skip(2) == answers(rs@).skip(at + 2));
    let st = set_shortcut_step(r, rs, at + 2);
    match st {
        Step::Wait(act) => Step::Wait(act),
        Step::Done(Ok(()), n) => Step::Done(Ok(()), 2 + n),
        Step::Done(Err(e), n) => {
            if at + 2 + n == rs.len() {
                Step::Wait(Action::SetMapping { keycode: k, symbols: prev.clone() })
            } else {
                assert(a.skip(2)[n as int] == answer(rs@[at + 2 + n]));
                match &rs[at + 2 + n] {
                    Ok(_) => Step::Done(Err(e), 3 + n),
                    Err(rb) => {
                        let mut m = e;
                        m.append("; restoring the previous mapping also failed: ");
                        m.append(rb.as_str());
                        Step::Done(Err(m), 3 + n)
                    },
                }
            }
        },
    }
}

/// Binds a rule's command to its shortcut symbol, given the replies so far.
pub fn set_shortcut(rule: &Rule, replies: &Vec<Reply>) -> (next: Next<()>)
    ensures
        next_agrees(next, set_shortcut_steps(rule@, answers(replies@))),
{
    assert(answers(replies@).skip(0) == answers(replies@));
    to_next(set_shortcut_step(rule, replies, 0))
}

/// Unbinds a rule's shortcut, given the replies so far.
pub fn remove_shortcut(rule: &Rule, replies: &Vec<Reply>) -> (next: Next<()>)
    ensures
        next_agrees(next, remove_shortcut_steps(rule@, answers(replies@))),
{
    assert(answers(replies@).skip(0) == answers(replies@));
    to_next(remove_shortcut_step(rule, replies, 0))
}

/// Undoes the rule on keycode `k`, given the replies so far.
pub fn restore(k: u16, rule: &Rule, replies: &Vec<Reply>) -> (next: Next<()>)
    ensures
        next_agrees(next, restore_steps(k, rule@, answers(replies@))),
{
    assert(answers(replies@).skip(0) == answers(replies@));
    to_next(restore_step(k, rule, replies, 0))
}

/// Puts the rule on keycode `k` in force, given the replies so far.
pub fn apply(k: u16, rule: &Rule, replies: &Vec<Reply>) -> (next: Next<()>)
    ensures
        next_agrees(next, apply_steps(k, rule@, answers(replies@))),
{
    assert(answers(replies@).skip(0) == answers(replies@));
    to_next(apply_step(k, rule, replies, 0))
}


/// Putting the old rule back in force after a failed write.
fn change_reapply_step(rules: &Rules, k: u16, e: String, rs: &Vec<Reply>, at: usize) -> (s: Step)
    requires
        at <= rs.len(),
    ensures
        step_view(s) == change_reapply_steps(rules_view(rules@), k, e@, answers(rs@), at as nat),
        s matches Step::Done(_, n) ==> n <= rs.len(),
{
    match rules.get(&k) {
        Some(old) => {
            let st = apply_step(k, old, rs, at);
            match st {
                Step::Wait(a) => Step::Wait(a),
                Step::Done(_, n) => Step::Done(Err(e), at + n),
            }
        },
        None => Step::Done(Err(e), at),
    }
}

/// Going back after the rules file could not be written.
fn change_undo_step(
    rules: &Rules,
    k: u16,
    new: &Option<Rule>,
    e: String,
    rs: &Vec<Reply>,
    at: usize,
) -> (s: Step)
    requires
        at <= rs.len(),
    ensures
        step_view(s) == change_undo_steps(
            rules_view(rules@),
            k,
            rule_option_view(*new),
            e@,
            answers(rs@),
            at as nat,
        ),
        s matches Step::Done(_, n) ==> n <= rs.len(),
{
    match new {
        Some(r) => {
            let st = restore_step(k, r, rs, at);
            match st {
                Step::Wait(a) => Step::Wait(a),
                Step::Done(_, n) => change_reapply_step(rules, k, e, rs, at + n),
            }
        },
        None => change_reapply_step(rules, k, e, rs, at),
    }
}

/// The rules after the change.
fn updated(rules: &Rules, k: u16, new: &Option<Rule>) -> (u: Rules)
    ensures
        rules_view(u@) == updated_rules(rules_view(rules@), k, rule_option_view(*new)),
{
    let mut u = rules.clone();
    match new {
        Some(r) => {
            let c = r.clone();
            u.insert(k, c);
            assert(rules_view(u@) =~= rules_view(rules@).insert(k, r@));
        },
        None => {
            u.remove(&k);
            assert(rules_view(u@) =~= rules_view(rules@).remove(k));
        },
    }
    u
}

/// Writing the rules file once the new rule is in force.
fn change_save_step(rules: &Rules, k: u16, new: &Option<Rule>, rs: &Vec<Reply>, at: usize) -> (s: Step)
    requires
        at <= rs.len(),
    ensures
        step_view(s) == change_save_steps(
            rules_view(rules@),
            k,
            rule_option_view(*new),
            answers(rs@),
            at as nat,
        ),
        s matches Step::Done(_, n) ==> n <= rs.len(),
{
    if at == rs.len() {
        let u = updated(rules, k, new);
        return Step::Wait(Action::SaveRules { text: encode(&u) });
    }
    assert(answers(rs@)[at as int] == answer(rs@[at as int]));
    match &rs[at] {
        Ok(_) => Step::Done(Ok(()), at + 1),
        Err(e) => change_undo_step(rules, k, new, e.clone(), rs, at + 1),
    }
}

/// Putting the new rule in force once the old one is undone.
fn change_apply_step(rules: &Rules, k: u16, new: &Option<Rule>, rs: &Vec<Reply>, at: usize) -> (s: Step)
    requires
        at <= rs.len(),
    ensures
        step_view(s) == change_apply_steps(
            rules_view(rules@),
            k,
            rule_option_view(*new),
            answers(rs@),
            at as nat,
        ),
        s matches Step::Done(_, n) ==> n <= rs.len(),
{
    match new {
        None => change_save_step(rules, k, new, rs, at),
        Some(r) => {
            let st = apply_step(k, r, rs, at);
            match st {
                Step::Wait(a) => Step::Wait(a),
                Step::Done(Ok(()), n) => change_save_step(rules, k, new, rs, at + n),
                Step::Done(Err(e), n) => {
                    match rules.get(&k) {
                        Some(old) => {
                            assert(answers(rs@).skip(at as int).skip(n as int) == answers(rs@).skip(
                                at + n,
                            ));
                            let st2 = apply_step(k, old, rs, at + n);
                            match st2 {
                                Step::Wait(a) => Step::Wait(a),
                                Step::Done(_, n2) => Step::Done(Err(e), at + n + n2),
                            }
                        },
                        None => Step::Done(Err(e), at + n),
                    }
                },
            }
        },
    }
}

/// Changes the rule on keycode `k` to `new` (`None` removes it), given the
/// replies so far.  The rules change only when the change succeeds.
pub fn change(rules: &mut Rules, k: u16, new: &Option<Rule>, replies: &Vec<Reply>) -> (next: Next<()>)
    ensures
        next_agrees(
            next,
            change_steps(rules_view(old(rules)@), k, rule_option_view(*new), answers(replies@)),
        ),
        next matches Next::Finish(Ok(())) ==> rules_view(final(rules)@) == updated_rules(
            rules_view(old(rules)@),
            k,
            rule_option_view(*new),
        ),
        !(next matches Next::Finish(Ok(()))) ==> final(rules)@ == old(rules)@,
        next matches Next::Finish(Ok(())) ==> forall|x: u16|
            x != k ==> (#[trigger] final(rules)@.contains_key(x) <==> old(rules)@.contains_key(x)),
        next matches Next::Finish(Ok(())) ==> forall|x: u16|
            x != k && #[trigger] old(rules)@.contains_key(x) ==> final(rules)@[x]@ == old(rules)@[x]@,
        next matches Next::Finish(Ok(())) ==> (final(rules)@.contains_key(k) <==> new is Some),
        next matches Next::Finish(Ok(())) && new is Some ==> final(rules)@[k]@ == new->Some_0@,
{
    proof {
        law_change_touches_only_its_key(rules_view(rules@), k, rule_option_view(*new));
    }
    assert(answers(replies@).skip(0) == answers(replies@));
    let st = match rules.get(&k) {
        Some(old) => {
            let st1 = restore_step(k, old, replies, 0);
            match st1 {
                Step::Wait(a) => Step::Wait(a),
                Step::Done(Err(e), n) => Step::Done(Err(e), n),
                Step::Done(Ok(()), n) => change_apply_step(rules, k, new, replies, n),
            }
        },
        None => change_apply_step(rules, k, new, replies, 0),
    };
    let next = to_next(st);
    if let Next::Finish(Ok(())) = next {
        let u = updated(rules, k, new);
        *rules = u;
        proof {
            let ov = rules_view(old(rules)@);
            let nv = rules_view(rules@);
            assert forall|x: u16| x != k implies (#[trigger] rules@.contains_key(x)
                <==> old(rules)@.contains_key(x)) by {
                assert(nv.contains_key(x) == rules@.contains_key(x));
                assert(ov.contains_key(x) == old(rules)@.contains_key(x));
            }
            assert forall|x: u16| x != k && #[trigger] old(rules)@.contains_key(x) implies rules@[x]@
                == old(rules)@[x]@ by {
                assert(nv[x] == rules@[x]@);
                assert(ov[x] == old(rules)@[x]@);
            }
            assert(nv.contains_key(k) == rules@.contains_key(k));
        }
    }
    next
}


/// Whether `d` holds `k`.
fn holds(d: &Vec<u16>, k: u16) -> (b: bool)
    ensures
        b == d@.contains(k),
{
    for j in 0..d.len()
        invariant
            forall|m: int| 0 <= m < j ==> d@[m] != k,
    {
        if d[j] == k {
            return true;
        }
    }
    false
}

/// A message about keycode `k`.
fn key_message(k: u16, middle: &str, e: &str) -> (m: String)
    ensures
        m@ == "keycode "@ + decimal(k as nat) + middle@ + e@,
{
    let mut m = "keycode ".to_owned();
    m.append(string_of(&decimal_of(k as u64)).as_str());
    m.append(middle);
    m.append(e);
    m
}

/// Messages joined with `sep` between them.
fn join_messages(ms: &Vec<String>, sep: &str) -> (out: String)
    ensures
        out@ == join_text(ms@.map_values(|m: String| m@), sep@),
{
    let ghost mv = ms@.map_values(|m: String| m@);
    let mut out = String::new();
    for i in 0..ms.len()
        invariant
            mv == ms@.map_values(|m: String| m@),
            out@ == join_text(mv.take(i as int), sep@),
    {
        assert(mv.take(i + 1).drop_last() == mv.take(i as int));
        if i > 0 {
            out.append(sep);
        } else {
            assert(mv.take(1) == seq![mv[0]]);
        }
        out.append(ms[i].as_str());
    }
    assert(mv.take(ms@.len() as int) == mv);
    out
}

/// Brings the live keymap and shortcuts back in line with the rules, given
/// the replies so far; ends with the number of remapped keys.
pub fn reconcile(rules: &Rules, replies: &Vec<Reply>) -> (next: Next<usize>)
    ensures
        next_agrees_count(next, reconcile_steps(rules_view(rules@), answers(replies@))),
{
    let ghost m = rules_view(rules@);
    let ghost rs = answers(replies@);
    if replies.len() == 0 {
        return Next::Perform(Action::ReadKeymap);
    }
    assert(rs[0] == answer(replies@[0]));
    let listing = match &replies[0] {
        Err(e) => return Next::Finish(Err(e.clone())),
        Ok(listing) => listing,
    };
    let current = maps(listing.as_str());
    let d = drifted_keycodes(&current, rules);
    let ks = keys_in_order(rules);
    proof {
        lemma_keys_from(rules@.dom(), 0);
    }
    assert(m.dom() == rules@.dom());
    let ghost goal = reconcile_steps(m, rs);
    let mut at: usize = 1;
    let mut changed: usize = 0;
    let mut errors: Vec<String> = Vec::new();
    assert(errors@.map_values(|e: String| e@) =~= Seq::<Seq<char>>::empty());
    assert(d@ == drifted(keymap_text(listing@), m));
    let mut i: usize = 0;
    while i < ks.len()
        invariant
            m == rules_view(rules@),
            rs == answers(replies@),
            goal == reconcile_steps(m, rs),
            ks@ == sorted_keys(m.dom()),
            forall|x: u16| #[trigger] ks@.contains(x) <==> rules@.contains_key(x),
            i <= ks.len(),
            at <= replies.len(),
            changed <= i,
            goal == reconcile_from(
                m,
                d@,
                ks@,
                i as int,
                rs,
                at as nat,
                changed as nat,
                errors@.map_values(|e: String| e@),
            ),
        decreases ks.len() - i,
    {
        let k = ks[i];
        assert(ks@.contains(k));
        let rule = rules.get(&k).unwrap();
        let drift = holds(&d, k);
        if drift {
            if at == replies.len() {
                return Next::Perform(
                    Action::SetMapping { keycode: k, symbols: rule.mapped.clone() },
                );
            }
            assert(rs[at as int] == answer(replies@[at as int]));
            match &replies[at] {
                Ok(_) => {
                    changed = changed + 1;
                },
                Err(e) => {
                    let ghost before = errors@;
                    errors.push(key_message(k, ": ", e.as_str()));
                    assert(errors@.map_values(|e: String| e@) == before.map_values(|e: String| e@).push(
                        keycode_error_text(k, e@),
                    ));
                },
            }
            at = at + 1;
        }
        let st = set_shortcut_step(rule, replies, at);
        match st {
            Step::Wait(a) => {
                return Next::Perform(a);
            },
            Step::Done(res, n) => {
                if let Err(e) = res {
                    let ghost before = errors@;
                    errors.push(key_message(k, " shortcut: ", e.as_str()));
                    assert(errors@.map_values(|e: String| e@) == before.map_values(|e: String| e@).push(
                        shortcut_error_text(k, e@),
                    ));
                }
                at = at + n;
            },
        }
        i = i + 1;
    }
    if errors.len() == 0 {
        Next::Finish(Ok(changed))
    } else {
        Next::Finish(Err(join_messages(&errors, "; ")))
    }
}


/// Picks a free launcher symbol, given the replies so far.
pub fn launcher_symbol(current: &std::collections::BTreeMap<u16, String>, replies: &Vec<Reply>) -> (next: Next<String>)
    ensures
        next_agrees_text(next, launcher_steps(keymap_view(current@), answers(replies@))),
{
    if replies.len() == 0 {
        return Next::Perform(Action::ListShortcuts);
    }
    assert(answers(replies@)[0] == answer(replies@[0]));
    match &replies[0] {
        Err(e) => Next::Finish(Err(e.clone())),
        Ok(bindings) => Next::Finish(available_launcher_symbol(current, bindings.as_str())),
    }
}

/// The `xmodmap` expression that gives keycode `k` the symbols `s`.
pub fn mapping_expression(k: u16, s: &str) -> (e: String)
    ensures
        e@ == mapping_text(k, s@),
{
    key_message(k, " = ", s)
}


/// Reconciling from the `i`-th rule remaps only drifted keys, each to its
/// rule's symbols.
proof fn lemma_reconcile_from_maps(
    m: Map<u16, RuleView>,
    d: Seq<u16>,
    ks: Seq<u16>,
    i: int,
    rs: Seq<Answer>,
    at: nat,
    changed: nat,
    errors: Seq<Seq<char>>,
)
    requires
        forall|j: int| 0 <= j < ks.len() ==> m.contains_key(#[trigger] ks[j]),
    ensures
        reconcile_from(m, d, ks, i, rs, at, changed, errors) matches Progress::Wait(
            Act::SetMapping(k, s),
        ) ==> d.contains(k) && m.contains_key(k) && s == m[k].mapped,
    decreases ks.len() - i,
{
    if 0 <= i < ks.len() {
        let k = ks[i];
        let r = m[k];
        if !(d.contains(k) && rs.len() <= at) {
            let (at1, changed1, errors1) = if d.contains(k) {
                match rs[at as int] {
                    Ok(_) => (at + 1, changed + 1, errors),
                    Err(e) => (at + 1, changed, errors.push(keycode_error_text(k, e))),
                }
            } else {
                (at, changed, errors)
            };
            match set_shortcut_steps(r, rs.skip(at1 as int)) {
                Progress::Wait(a) => {},
                Progress::Done(res, n) => {
                    lemma_reconcile_from_maps(
                        m,
                        d,
                        ks,
                        i + 1,
                        rs,
                        (at1 + n) as nat,
                        changed1,
                        match res {
                            Ok(()) => errors1,
                            Err(e) => errors1.push(shortcut_error_text(k, e)),
                        },
                    );
                },
            }
        }
    }
}

/// Reconciling remaps only keys whose saved mapping has drifted from the
/// keymap it read, and each only to the symbols of its rule.
pub proof fn law_reconcile_remaps_drifted(m: Map<u16, RuleView>, rs: Seq<Answer>, k: u16, s: Seq<char>)
    requires
        reconcile_steps(m, rs) == Progress::<nat>::Wait(Act::SetMapping(k, s)),
    ensures
        rs.len() > 0,
        rs[0] is Ok,
        m.contains_key(k),
        !(keymap_text(rs[0]->Ok_0).contains_key(k) && keymap_text(rs[0]->Ok_0)[k] == m[k].mapped),
        s == m[k].mapped,
{
    lemma_keys_from(m.dom(), 0);
    let ks = sorted_keys(m.dom());
    assert forall|j: int| 0 <= j < ks.len() implies m.contains_key(#[trigger] ks[j]) by {
        assert(ks.contains(ks[j]));
    }
    let cur = keymap_text(rs[0]->Ok_0);
    lemma_reconcile_from_maps(m, drifted(cur, m), ks, 0, rs, 1, 0, seq![]);
    law_drifted_exactly(cur, m, k);
}

/// With no rule drifted and no rule launching a command, reconciling from
/// the `i`-th rule asks for nothing and changes nothing.
proof fn lemma_reconcile_from_quiet(
    m: Map<u16, RuleView>,
    d: Seq<u16>,
    ks: Seq<u16>,
    i: int,
    rs: Seq<Answer>,
    at: nat,
)
    requires
        d.len() == 0,
        forall|j: int| 0 <= j < ks.len() ==> m[#[trigger] ks[j]].command.len() == 0,
        0 <= i <= ks.len(),
    ensures
        reconcile_from(m, d, ks, i, rs, at, 0, seq![]) == Progress::<nat>::Done(Ok(0), at),
    decreases ks.len() - i,
{
    if i < ks.len() {
        assert(m[ks[i]].command.len() == 0);
        assert(!d.contains(ks[i]));
        lemma_reconcile_from_quiet(m, d, ks, i + 1, rs, at);
    }
}

/// When the keymap already shows every saved mapping and no rule launches a
/// command, reconciling reads the keymap and ends at once, having remapped
/// nothing.
pub proof fn law_reconcile_in_line(m: Map<u16, RuleView>, listing: Seq<char>)
    requires
        forall|k: u16| #[trigger] m.contains_key(k) ==> keymap_text(listing).contains_key(k)
            && keymap_text(listing)[k] == m[k].mapped && m[k].command.len() == 0,
    ensures
        reconcile_steps(m, seq![Ok(listing)]) == Progress::<nat>::Done(Ok(0), 1),
{
    let cur = keymap_text(listing);
    let d = drifted(cur, m);
    if d.len() > 0 {
        let k = d[0];
        assert(d.contains(k));
        law_drifted_exactly(cur, m, k);
    }
    lemma_keys_from(m.dom(), 0);
    let ks = sorted_keys(m.dom());
    assert forall|j: int| 0 <= j < ks.len() implies m[#[trigger] ks[j]].command.len() == 0 by {
        assert(ks.contains(ks[j]));
    }
    let rs: Seq<Answer> = seq![Ok(listing)];
    assert(rs[0] == Ok::<Seq<char>, Seq<char>>(listing));
    lemma_reconcile_from_quiet(m, d, ks, 0, rs, 1);
}

/// Binding a shortcut reads no reply past the ones it ended with.
proof fn lemma_set_shortcut_prefix(r: RuleView, s: Seq<Answer>, j: int)
    requires
        set_shortcut_steps(r, s) is Done,
        set_shortcut_steps(r, s)->Done_1 <= j <= s.len(),
    ensures
        set_shortcut_steps(r, s.take(j)) == set_shortcut_steps(r, s),
{
    let t = s.take(j);
    if t.len() > 0 {
        assert(t[0] == s[0]);
    }
    if t.len() > 1 {
        assert(t[1] == s[1]);
    }
}

/// Reconciling ends no earlier than where it starts and no later than the
/// replies it has.
proof fn lemma_reconcile_from_ends(
    m: Map<u16, RuleView>,
    d: Seq<u16>,
    ks: Seq<u16>,
    i: int,
    rs: Seq<Answer>,
    at: nat,
    changed: nat,
    errors: Seq<Seq<char>>,
)
    requires
        at <= rs.len(),
        reconcile_from(m, d, ks, i, rs, at, changed, errors) is Done,
    ensures
        at <= reconcile_from(m, d, ks, i, rs, at, changed, errors)->Done_1 <= rs.len(),
        errors.len() > 0 ==> reconcile_from(m, d, ks, i, rs, at, changed, errors)->Done_0 is Err,
    decreases ks.len() - i,
{
    if 0 <= i < ks.len() {
        let k = ks[i];
        let r = m[k];
        let (at1, changed1, errors1) = if d.contains(k) {
            match rs[at as int] {
                Ok(_) => (at + 1, changed + 1, errors),
                Err(e) => (at + 1, changed, errors.push(keycode_error_text(k, e))),
            }
        } else {
            (at, changed, errors)
        };
        if let Progress::Done(res, n) = set_shortcut_steps(r, rs.skip(at1 as int)) {
            let e2 = match res {
                Ok(()) => errors1,
                Err(e) => errors1.push(shortcut_error_text(k, e)),
            };
            lemma_reconcile_from_ends(m, d, ks, i + 1, rs, (at1 + n) as nat, changed1, e2);
        }
    }
}

/// Every drifted key still ahead is asked to be remapped, to its rule's
/// symbols, at some point before reconciling ends.
proof fn lemma_reconcile_from_asks(
    m: Map<u16, RuleView>,
    d: Seq<u16>,
    ks: Seq<u16>,
    i: int,
    rs: Seq<Answer>,
    at: nat,
    changed: nat,
    errors: Seq<Seq<char>>,
    t: int,
)
    requires
        0 <= i <= t < ks.len(),
        d.contains(ks[t]),
        at <= rs.len(),
        reconcile_from(m, d, ks, i, rs, at, changed, errors) is Done,
    ensures
        exists|j: int|
            at <= j < reconcile_from(m, d, ks, i, rs, at, changed, errors)->Done_1 && #[trigger] reconcile_from(
                m,
                d,
                ks,
                i,
                rs.take(j),
                at,
                changed,
                errors,
            ) == Progress::<nat>::Wait(Act::SetMapping(ks[t], m[ks[t]].mapped)),
    decreases ks.len() - i,
{
    let k = ks[i];
    let r = m[k];
    let n = reconcile_from(m, d, ks, i, rs, at, changed, errors)->Done_1;
    let (at1, changed1, errors1) = if d.contains(k) {
        match rs[at as int] {
            Ok(_) => (at + 1, changed + 1, errors),
            Err(e) => (at + 1, changed, errors.push(keycode_error_text(k, e))),
        }
    } else {
        (at, changed, errors)
    };
    let st = set_shortcut_steps(r, rs.skip(at1 as int));
    let ns = st->Done_1;
    let e2 = match st->Done_0 {
        Ok(()) => errors1,
        Err(e) => errors1.push(shortcut_error_text(k, e)),
    };
    lemma_reconcile_from_ends(m, d, ks, i + 1, rs, (at1 + ns) as nat, changed1, e2);
    if i == t {
        let j = at as int;
        assert(rs.take(j).len() == at);
        assert(reconcile_from(m, d, ks, i, rs.take(j), at, changed, errors) == Progress::<nat>::Wait(
            Act::SetMapping(ks[t], m[ks[t]].mapped),
        ));
    } else {
        lemma_reconcile_from_asks(m, d, ks, i + 1, rs, (at1 + ns) as nat, changed1, e2, t);
        let j = choose|j: int|
            (at1 + ns) as nat <= j < n && #[trigger] reconcile_from(
                m,
                d,
                ks,
                i + 1,
                rs.take(j),
                (at1 + ns) as nat,
                changed1,
                e2,
            ) == Progress::<nat>::Wait(Act::SetMapping(ks[t], m[ks[t]].mapped));
        let rj = rs.take(j);
        if d.contains(k) {
            assert(rj[at as int] == rs[at as int]);
        }
        assert(rj.skip(at1 as int) == rs.skip(at1 as int).take(j - at1));
        lemma_set_shortcut_prefix(r, rs.skip(at1 as int), j - at1);
        assert(reconcile_from(m, d, ks, i, rj, at, changed, errors) == reconcile_from(
            m,
            d,
            ks,
            i + 1,
            rj,
            (at1 + ns) as nat,
            changed1,
            e2,
        ));
    }
}

/// Once the keymap is read, every keycode whose saved mapping has drifted
/// is asked to be remapped to its rule's symbols before reconciling ends,
/// whatever the later replies are.
pub proof fn law_reconcile_remaps_every_drifted(m: Map<u16, RuleView>, rs: Seq<Answer>, k: u16)
    requires
        rs.len() > 0,
        rs[0] is Ok,
        reconcile_steps(m, rs) is Done,
        drifted(keymap_text(rs[0]->Ok_0), m).contains(k),
    ensures
        m.contains_key(k),
        exists|j: int|
            1 <= j < reconcile_steps(m, rs)->Done_1 && #[trigger] reconcile_steps(m, rs.take(j))
                == Progress::<nat>::Wait(Act::SetMapping(k, m[k].mapped)),
{
    let cur = keymap_text(rs[0]->Ok_0);
    let d = drifted(cur, m);
    let ks = sorted_keys(m.dom());
    law_drifted_exactly(cur, m, k);
    lemma_keys_from(m.dom(), 0);
    assert(ks.contains(k));
    let t = choose|t: int| 0 <= t < ks.len() && ks[t] == k;
    lemma_reconcile_from_asks(m, d, ks, 0, rs, 1, 0, seq![], t);
    lemma_reconcile_from_ends(m, d, ks, 0, rs, 1, 0, seq![]);
    let j = choose|j: int|
        1 <= j < reconcile_steps(m, rs)->Done_1 && #[trigger] reconcile_from(
            m,
            d,
            ks,
            0,
            rs.take(j),
            1,
            0,
            seq![],
        ) == Progress::<nat>::Wait(Act::SetMapping(ks[t], m[ks[t]].mapped));
    assert(rs.take(j)[0] == rs[0]);
    assert(reconcile_steps(m, rs.take(j)) == reconcile_from(m, d, ks, 0, rs.take(j), 1, 0, seq![]));
}

/// How many keycodes of `s` are in `d`.
pub open spec fn count_in(s: Seq<u16>, d: Seq<u16>) -> nat
    decreases s.len(),
{
    if s.len() == 0 {
        0
    } else {
        held(d, s[0]) + count_in(s.drop_first(), d)
    }
}

/// One when `d` holds `x`, else zero.
pub open spec fn held(d: Seq<u16>, x: u16) -> nat {
    if d.contains(x) {
        1
    } else {
        0
    }
}

/// Counting one more keycode at the end.
proof fn lemma_count_in_push(s: Seq<u16>, x: u16, d: Seq<u16>)
    ensures
        count_in(s.push(x), d) == count_in(s, d) + held(d, x),
    decreases s.len(),
{
    if s.len() > 0 {
        assert(s.push(x).drop_first() == s.drop_first().push(x));
        assert(s.push(x)[0] == s[0]);
        lemma_count_in_push(s.drop_first(), x, d);
    } else {
        assert(s.push(x).drop_first() == Seq::<u16>::empty());
        assert(s.push(x)[0] == x);
        assert(count_in(Seq::<u16>::empty(), d) == 0);
        assert(count_in(s, d) == 0);
    }
}

/// The drifted keycodes among `s` are as many as the keycodes of `s` that
/// the drifted list holds.
proof fn lemma_drifted_count(s: Seq<u16>, d: Seq<u16>, cur: Map<u16, Seq<char>>, m: Map<u16, RuleView>)
    requires
        forall|x: u16| #[trigger] d.contains(x) <==> (s.contains(x) && crate::keymap::is_drifted(cur, m, x)),
    ensures
        count_in(s, d) == crate::keymap::drifted_among(s, cur, m).len(),
    decreases s.len(),
{
    if s.len() > 0 {
        let init = s.drop_last();
        let x = s.last();
        assert(s == init.push(x));
        lemma_count_in_push(init, x, d);
        assert(s.contains(x));
        let d0 = crate::keymap::drifted_among(init, cur, m);
        assert forall|y: u16| #[trigger] d.contains(y) && init.contains(y) <==> (init.contains(y)
            && crate::keymap::is_drifted(cur, m, y)) by {
            if init.contains(y) {
                let i = choose|i: int| 0 <= i < init.len() && init[i] == y;
                assert(s[i] == y);
            }
        }
        lemma_count_in_restrict(init, d, cur, m);
    }
}

/// Counting the keycodes of `s` in `d` only looks at those of `s`.
proof fn lemma_count_in_restrict(s: Seq<u16>, d: Seq<u16>, cur: Map<u16, Seq<char>>, m: Map<u16, RuleView>)
    requires
        forall|y: u16| #[trigger] d.contains(y) && s.contains(y) <==> (s.contains(y)
            && crate::keymap::is_drifted(cur, m, y)),
    ensures
        count_in(s, d) == crate::keymap::drifted_among(s, cur, m).len(),
    decreases s.len(),
{
    if s.len() > 0 {
        let init = s.drop_last();
        let x = s.last();
        assert(s == init.push(x));
        assert(s.contains(x));
        lemma_count_in_push(init, x, d);
        assert forall|y: u16| #[trigger] d.contains(y) && init.contains(y) <==> (init.contains(y)
            && crate::keymap::is_drifted(cur, m, y)) by {
            if init.contains(y) {
                let i = choose|i: int| 0 <= i < init.len() && init[i] == y;
                assert(s[i] == y);
                assert(s.contains(y));
            }
        }
        lemma_count_in_restrict(init, d, cur, m);
    }
}

/// With every reply a success, reconciling from the `i`-th rule without
/// failures so far counts one remapped key for each drifted keycode ahead.
proof fn lemma_reconcile_from_counts(
    m: Map<u16, RuleView>,
    d: Seq<u16>,
    ks: Seq<u16>,
    i: int,
    rs: Seq<Answer>,
    at: nat,
    changed: nat,
    c: nat,
)
    requires
        0 <= i <= ks.len(),
        at <= rs.len(),
        forall|x: int| 0 <= x < rs.len() ==> (#[trigger] rs[x]) is Ok,
        reconcile_from(m, d, ks, i, rs, at, changed, seq![]) is Done,
        reconcile_from(m, d, ks, i, rs, at, changed, seq![])->Done_0 == Ok::<nat, Seq<char>>(c),
    ensures
        c == changed + count_in(ks.skip(i), d),
    decreases ks.len() - i,
{
    if i == ks.len() {
        assert(ks.skip(i).len() == 0);
    } else {
        let k = ks[i];
        let r = m[k];
        let errors: Seq<Seq<char>> = seq![];
        let (at1, changed1, errors1) = if d.contains(k) {
            match rs[at as int] {
                Ok(_) => (at + 1, changed + 1, errors),
                Err(e) => (at + 1, changed, errors.push(keycode_error_text(k, e))),
            }
        } else {
            (at, changed, errors)
        };
        if d.contains(k) {
            assert(rs[at as int] is Ok);
        }
        let st = set_shortcut_steps(r, rs.skip(at1 as int));
        let ns = st->Done_1;
        let e2 = match st->Done_0 {
            Ok(()) => errors1,
            Err(e) => errors1.push(shortcut_error_text(k, e)),
        };
        lemma_reconcile_from_ends(m, d, ks, i + 1, rs, (at1 + ns) as nat, changed1, e2);
        assert(e2.len() == 0);
        assert(e2 == Seq::<Seq<char>>::empty());
        lemma_reconcile_from_counts(m, d, ks, i + 1, rs, (at1 + ns) as nat, changed1, c);
        assert(ks.skip(i)[0] == k);
        assert(ks.skip(i).drop_first() == ks.skip(i + 1));
    }
}

/// When every reply is a success and reconciling succeeds, the count it
/// ends with is the number of keycodes whose saved mapping had drifted
/// from the keymap it read.
pub proof fn law_reconcile_counts_drifted(m: Map<u16, RuleView>, rs: Seq<Answer>, c: nat)
    requires
        rs.len() > 0,
        forall|x: int| 0 <= x < rs.len() ==> (#[trigger] rs[x]) is Ok,
        reconcile_steps(m, rs) is Done,
        reconcile_steps(m, rs)->Done_0 == Ok::<nat, Seq<char>>(c),
    ensures
        c == drifted(keymap_text(rs[0]->Ok_0), m).len(),
{
    assert(rs[0] is Ok);
    let cur = keymap_text(rs[0]->Ok_0);
    let d = drifted(cur, m);
    let ks = sorted_keys(m.dom());
    lemma_reconcile_from_counts(m, d, ks, 0, rs, 1, 0, c);
    assert(ks.skip(0) == ks);
    assert forall|x: u16| #[trigger] d.contains(x) <==> (ks.contains(x) && crate::keymap::is_drifted(cur, m, x)) by {
        law_drifted_exactly(cur, m, x);
        lemma_keys_from(m.dom(), 0);
    }
    lemma_drifted_count(ks, d, cur, m);
}

/// Restoring remaps only the rule's key, and only to its original symbols.
pub proof fn law_restore_maps_original(k: u16, r: RuleView, rs: Seq<Answer>, k2: u16, s: Seq<char>)
    requires
        restore_steps(k, r, rs) == Progress::<()>::Wait(Act::SetMapping(k2, s)),
    ensures
        k2 == k,
        s == r.original,
{
}

/// Applying remaps only the rule's key: to the rule's symbols, or back to
/// the symbols the keymap showed for it before.
pub proof fn law_apply_maps(k: u16, r: RuleView, rs: Seq<Answer>, k2: u16, s: Seq<char>)
    requires
        apply_steps(k, r, rs) == Progress::<()>::Wait(Act::SetMapping(k2, s)),
    ensures
        k2 == k,
        s == r.mapped || (rs[0] is Ok && s == keymap_text(rs[0]->Ok_0)[k]),
{
}

/// When the key was remapped but its shortcut could not be bound, applying
/// next puts back the symbols the keymap showed for the key before.
pub proof fn law_apply_rolls_back(
    k: u16,
    r: RuleView,
    listing: Seq<char>,
    done: Seq<char>,
    rest: Seq<Answer>,
    e: Seq<char>,
)
    requires
        keymap_text(listing).contains_key(k),
        set_shortcut_steps(r, rest) == Progress::<()>::Done(Err(e), rest.len()),
    ensures
        apply_steps(k, r, seq![Ok(listing), Ok(done)] + rest) == Progress::<()>::Wait(
            Act::SetMapping(k, keymap_text(listing)[k]),
        ),
{
    let rs = seq![Ok(listing), Ok(done)] + rest;
    assert(rs[0] == Ok::<Seq<char>, Seq<char>>(listing));
    assert(rs[1] == Ok::<Seq<char>, Seq<char>>(done));
    assert(rs.skip(2) == rest);
}

/// When the shortcut already launches the rule's command, binding it
/// creates nothing and succeeds.
pub proof fn law_set_shortcut_idempotent(r: RuleView)
    requires
        r.command.len() > 0,
    ensures
        set_shortcut_steps(r, seq![Ok(r.command)]) == Progress::<()>::Done(Ok(()), 1),
{
    let rs: Seq<Answer> = seq![Ok(r.command)];
    assert(rs[0] == Ok::<Seq<char>, Seq<char>>(r.command));
}

/// Changing the rule on `k` leaves every other keycode's rule as it was:
/// the same keycodes other than `k` keep a rule, each the same rule; `k`
/// has a rule afterwards exactly when a new one is given, and then that one.
pub proof fn law_change_touches_only_its_key(m: Map<u16, RuleView>, k: u16, new: Option<RuleView>)
    ensures
        forall|x: u16|
            x != k ==> (#[trigger] updated_rules(m, k, new).contains_key(x) <==> m.contains_key(x)),
        forall|x: u16|
            x != k && #[trigger] m.contains_key(x) ==> updated_rules(m, k, new)[x] == m[x],
        updated_rules(m, k, new).contains_key(k) <==> new is Some,
        new matches Some(r) ==> updated_rules(m, k, new)[k] == r,
{
}

/// Whether an action writes the rules file.
pub open spec fn writes_rules(a: Act) -> bool {
    a is SaveRules
}

/// Restoring never writes the rules file.
proof fn lemma_restore_no_save(k: u16, r: RuleView, rs: Seq<Answer>)
    ensures
        !(restore_steps(k, r, rs) matches Progress::Wait(a) && writes_rules(a)),
{
}

/// Applying never writes the rules file.
proof fn lemma_apply_no_save(k: u16, r: RuleView, rs: Seq<Answer>)
    ensures
        !(apply_steps(k, r, rs) matches Progress::Wait(a) && writes_rules(a)),
{
}

/// Going back after a failed write never writes the rules file.
proof fn lemma_undo_no_save(
    m: Map<u16, RuleView>,
    k: u16,
    new: Option<RuleView>,
    e: Seq<char>,
    rs: Seq<Answer>,
    at: nat,
)
    ensures
        !(change_undo_steps(m, k, new, e, rs, at) matches Progress::Wait(a) && writes_rules(a)),
{
    if let Some(r) = new {
        lemma_restore_no_save(k, r, rs.skip(at as int));
        if let Progress::Done(_, n) = restore_steps(k, r, rs.skip(at as int)) {
            if m.contains_key(k) {
                lemma_apply_no_save(k, m[k], rs.skip((at + n) as int));
            }
        }
    } else if m.contains_key(k) {
        lemma_apply_no_save(k, m[k], rs.skip(at as int));
    }
}

/// From the write on, the only file written is that of the changed rules.
proof fn lemma_save_writes_changed(
    m: Map<u16, RuleView>,
    k: u16,
    new: Option<RuleView>,
    rs: Seq<Answer>,
    at: nat,
)
    ensures
        change_save_steps(m, k, new, rs, at) matches Progress::Wait(Act::SaveRules(t)) ==> t
            == encode_rules(updated_rules(m, k, new)),
{
    if rs.len() > at {
        if let Err(e) = rs[at as int] {
            lemma_undo_no_save(m, k, new, e, rs, at + 1);
        }
    }
}

/// From the new rule on, the only file written is that of the changed
/// rules.
proof fn lemma_apply_part_writes_changed(
    m: Map<u16, RuleView>,
    k: u16,
    new: Option<RuleView>,
    rs: Seq<Answer>,
    at: nat,
)
    ensures
        change_apply_steps(m, k, new, rs, at) matches Progress::Wait(Act::SaveRules(t)) ==> t
            == encode_rules(updated_rules(m, k, new)),
{
    match new {
        None => lemma_save_writes_changed(m, k, new, rs, at),
        Some(r) => {
            lemma_apply_no_save(k, r, rs.skip(at as int));
            match apply_steps(k, r, rs.skip(at as int)) {
                Progress::Wait(_) => {},
                Progress::Done(Ok(()), n) => lemma_save_writes_changed(m, k, new, rs, at + n),
                Progress::Done(Err(_), n) => {
                    if m.contains_key(k) {
                        lemma_apply_no_save(k, m[k], rs.skip((at + n) as int));
                    }
                },
            }
        },
    }
}

/// A change writes only the rules file of the changed rules, and that file
/// reads back as the changed rules.
pub proof fn law_change_saves_changed(
    m: Map<u16, RuleView>,
    k: u16,
    new: Option<RuleView>,
    rs: Seq<Answer>,
    t: Seq<char>,
)
    requires
        forall|x: u16| #[trigger] m.contains_key(x) ==> 8 <= x <= 255,
        new is Some ==> 8 <= k <= 255,
        change_steps(m, k, new, rs) == Progress::<()>::Wait(Act::SaveRules(t)),
    ensures
        t == encode_rules(updated_rules(m, k, new)),
        decode_text(t) == Ok::<Map<u16, RuleView>, Seq<char>>(updated_rules(m, k, new)),
{
    if m.contains_key(k) {
        lemma_restore_no_save(k, m[k], rs);
        if let Progress::Done(Ok(()), n) = restore_steps(k, m[k], rs) {
            lemma_apply_part_writes_changed(m, k, new, rs, n);
        }
    } else {
        lemma_apply_part_writes_changed(m, k, new, rs, 0);
    }
    let u = updated_rules(m, k, new);
    assert forall|x: u16| #[trigger] u.contains_key(x) implies 8 <= x <= 255 by {
        if x != k {
            assert(m.contains_key(x));
        }
    }
    law_decode_encode(u);
}

} // verus!
