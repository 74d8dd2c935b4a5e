//! Texts that the editor shows for keys and saved rules.

use vstd::prelude::*;
use vstd::string::*;
use std::collections::BTreeMap;
use crate::text::{chars_of, decimal, decimal_of, starts_with_of, string_of, views, words, words_of};
use crate::rules::{RuleView, Rules, rules_view};
use crate::keymap::keymap_view;
use crate::order::{keys_in_order, lemma_keys_from, sorted_keys};

verus! {

/// `s` with every occurrence of `from`, found left to right without
/// overlap, replaced by `to` (what `str::replace` gives).
pub open spec fn replace_all(s: Seq<char>, from: Seq<char>, to: Seq<char>) -> Seq<char>
    decreases s.len(),
{
    if from.len() == 0 || s.len() < from.len() {
        s
    } else if s.take(from.len() as int) == from {
        to + replace_all(s.skip(from.len() as int), from, to)
    } else {
        seq![s[0]] + replace_all(s.drop_first(), from, to)
    }
}

/// `s` with every occurrence of `from` replaced by `to`.
pub fn replace_of(s: &[char], from: &[char], to: &[char]) -> (out: Vec<char>)
    requires
        from@.len() > 0,
    ensures
        out@ == replace_all(s@, from@, to@),
{
    let mut out: Vec<char> = Vec::new();
    let mut i: usize = 0;
    assert(s@.skip(0) == s@);
    while i < s.len()
        invariant
            from@.len() > 0,
            i <= s@.len(),
            out@ + replace_all(s@.skip(i as int), from@, to@) == replace_all(s@, from@, to@),
        decreases s.len() - i,
    {
        let rest = crate::text::sub_chars(s, i, s.len());
        assert(rest@ == s@.skip(i as int));
        if s.len() - i >= from.len() && starts_with_of(&rest, from) {
            let ghost before = out@;
            for j in 0..to.len()
                invariant
                    out@ == before + to@.take(j as int),
            {
                out.push(to[j]);
                assert(to@.take(j + 1) == to@.take(j as int).push(to@[j as int]));
            }
            assert(to@.take(to@.len() as int) == to@);
            assert(s@.skip(i as int).skip(from@.len() as int) == s@.skip(i + from@.len()));
            i = i + from.len();
        } else {
            let ghost before = out@;
            out.push(s[i]);
            assert(s@.skip(i as int).drop_first() == s@.skip(i + 1));
            assert(s@.skip(i as int)[0] == s@[i as int]);
            assert(out@ == before + seq![s@[i as int]]);
            i = i + 1;
        }
    }
    assert(s@.skip(i as int).len() == 0);
    assert(out@ + Seq::<char>::empty() == out@);
    out
}

/// What a key without a command shows it does: its first symbol (or
/// `Unassigned`), with `BackSpace` then `space` written in title case.
pub open spec fn key_label_text(mapped: Seq<char>) -> Seq<char> {
    let first = if words(mapped).len() > 0 {
        words(mapped)[0]
    } else {
        "Unassigned"@
    };
    replace_all(replace_all(first, "BackSpace"@, "Backspace"@), "space"@, "Space"@)
}

/// What a key without a command shows it does.
pub fn key_label(mapped: &str) -> (label: String)
    ensures
        label@ == key_label_text(mapped@),
{
    let ws = words_of(&chars_of(mapped));
    let first = if ws.len() > 0 {
        assert(views(ws@)[0] == ws@[0]@);
        ws[0].clone()
    } else {
        chars_of("Unassigned")
    };
    let backspace = chars_of("BackSpace");
    let space = chars_of("space");
    proof {
        reveal_strlit("BackSpace");
        reveal_strlit("space");
    }
    let once = replace_of(&first, &backspace, &chars_of("Backspace"));
    let twice = replace_of(&once, &space, &chars_of("Space"));
    string_of(&twice)
}

/// The name of keycode `k` on one line: its key name with line breaks as
/// spaces, or its number.
pub open spec fn key_name(names: Map<u16, Seq<char>>, k: u16) -> Seq<char> {
    let n = if names.contains_key(k) {
        names[k]
    } else {
        decimal(k as nat)
    };
    n.map_values(|c: char| if c == '\n' { ' ' } else { c })
}

/// What a saved rule does, in a word: its command, or its first symbol.
pub open spec fn rule_action(r: RuleView) -> Seq<char> {
    if r.command.len() == 0 {
        if words(r.mapped).len() > 0 {
            words(r.mapped)[0]
        } else {
            seq![]
        }
    } else {
        r.command
    }
}

/// One line of the summary for keycode `k`.
pub open spec fn summary_line(names: Map<u16, Seq<char>>, k: u16, r: RuleView) -> Seq<char> {
    key_name(names, k) + " → "@ + rule_action(r)
}

/// The summary lines of the keycodes `ks`, joined by line breaks.
pub open spec fn summary_lines(names: Map<u16, Seq<char>>, m: Map<u16, RuleView>, ks: Seq<u16>) -> Seq<char>
    decreases ks.len(),
{
    if ks.len() == 0 {
        seq![]
    } else if ks.len() == 1 {
        summary_line(names, ks[0], m[ks[0]])
    } else {
        summary_lines(names, m, ks.drop_last()) + seq!['\n'] + summary_line(
            names,
            ks.last(),
            m[ks.last()],
        )
    }
}

/// The list of saved rules, one line per keycode in ascending order.
pub open spec fn summary_text(names: Map<u16, Seq<char>>, m: Map<u16, RuleView>) -> Seq<char> {
    if m.dom().len() == 0 {
        "No saved changes."@
    } else {
        summary_lines(names, m, sorted_keys(m.dom()))
    }
}

/// The name of keycode `k` on one line.
fn key_name_of(names: &BTreeMap<u16, String>, k: u16) -> (n: Vec<char>)
    ensures
        n@ == key_name(keymap_view(names@), k),
{
    let raw = match names.get(&k) {
        Some(n) => chars_of(n.as_str()),
        None => decimal_of(k as u64),
    };
    let mut out: Vec<char> = Vec::new();
    for i in 0..raw.len()
        invariant
            out@ == raw@.take(i as int).map_values(|c: char| if c == '\n' { ' ' } else { c }),
    {
        out.push(if raw[i] == '\n' { ' ' } else { raw[i] });
        assert(raw@.take(i + 1).map_values(|c: char| if c == '\n' { ' ' } else { c }) =~= raw@.take(
            i as int,
        ).map_values(|c: char| if c == '\n' { ' ' } else { c }).push(
            if raw@[i as int] == '\n' { ' ' } else { raw@[i as int] },
        ));
    }
    assert(raw@.take(raw@.len() as int) == raw@);
    out
}

/// The list of saved rules that the editor shows, given the names of the
/// keys.
pub fn rules_summary(rules: &Rules, names: &BTreeMap<u16, String>) -> (text: String)
    ensures
        text@ == summary_text(keymap_view(names@), rules_view(rules@)),
{
    let ks = keys_in_order(rules);
    let ghost m = rules_view(rules@);
    let ghost nv = keymap_view(names@);
    proof {
        lemma_keys_from(rules@.dom(), 0);
        crate::order::lemma_sorted_keys_len(rules@.dom());
    }
    assert(m.dom() == rules@.dom());
    if ks.len() == 0 {
        return "No saved changes.".to_owned();
    }
    let mut out: Vec<char> = Vec::new();
    for i in 0..ks.len()
        invariant
            ks@ == sorted_keys(m.dom()),
            m == rules_view(rules@),
            nv == keymap_view(names@),
            forall|x: u16| #[trigger] ks@.contains(x) <==> rules@.contains_key(x),
            out@ == summary_lines(nv, m, ks@.take(i as int)),
    {
        let k = ks[i];
        assert(ks@.contains(k));
        let r = rules.get(&k).unwrap();
        let ghost before = out@;
        if i > 0 {
            out.push('\n');
        }
        let mut line = key_name_of(names, k);
        line.append(&mut chars_of(" → "));
        if r.command.as_str().is_empty() {
            let ws = words_of(&chars_of(r.mapped.as_str()));
            if ws.len() > 0 {
                assert(views(ws@)[0] == ws@[0]@);
                line.append(&mut ws[0].clone());
            }
        } else {
            line.append(&mut chars_of(r.command.as_str()));
        }
        assert(line@ == summary_line(nv, k, m[k]));
        let ghost l = line@;
        out.append(&mut line);
        proof {
            let t = ks@.take(i + 1);
            assert(t.drop_last() == ks@.take(i as int));
            assert(t.last() == k);
            if i == 0 {
                assert(t[0] == k);
            }
        }
    }
    assert(ks@.take(ks@.len() as int) == ks@);
    string_of(&out)
}

} // verus!
