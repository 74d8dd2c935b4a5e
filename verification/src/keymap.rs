//! The live key mapping as `xmodmap -pke` lists it, and the decisions that
//! read it: which saved mappings have drifted, which launcher symbol is
//! free, which keys are modifiers.

use vstd::prelude::*;
use vstd::string::*;
use std::collections::BTreeMap;
use crate::text::{
    IntError,
    chars_of, decimal, decimal_of, ends_with, ends_with_of, first_at, first_at_of, has_part,
    has_part_of, join, join_of, lines, lines_of, parse_u16, parse_u16_of, same_chars,
    starts_with, starts_with_of, string_of, sub_chars, lemma_first_at_bound, views, words, words_of,
};
use crate::rules::{RuleView, Rules, rules_view};
use crate::order::{keys_in_order, lemma_keys_from, sorted_keys};

verus! {

/// Key symbols by keycode, as texts.
pub open spec fn keymap_view(m: Map<u16, String>) -> Map<u16, Seq<char>> {
    m.map_values(|s: String| s@)
}

/// The keycode and key symbols of one `keycode N = sym sym ...` line: the
/// second word before the first `=` is the keycode, and the words after it
/// are the symbols, joined by single spaces.  Other lines hold nothing.
pub open spec fn keymap_entry(line: Seq<char>) -> Option<(u16, Seq<char>)> {
    match first_at(line, '=') {
        None => None,
        Some(i) => {
            let before = words(line.take(i));
            if before.len() < 2 {
                None
            } else {
                match parse_u16(before[1]) {
                    Ok(k) => Some((k, join(words(line.skip(i + 1)), ' '))),
                    Err(_) => None,
                }
            }
        },
    }
}

/// The keymap of a listing's lines; a later line for a keycode wins.
pub open spec fn keymap_lines(ls: Seq<Seq<char>>) -> Map<u16, Seq<char>>
    decreases ls.len(),
{
    if ls.len() == 0 {
        Map::empty()
    } else {
        match keymap_entry(ls.last()) {
            Some((k, v)) => keymap_lines(ls.drop_last()).insert(k, v),
            None => keymap_lines(ls.drop_last()),
        }
    }
}

/// The keymap that a `xmodmap -pke` listing shows.
pub open spec fn keymap_text(s: Seq<char>) -> Map<u16, Seq<char>> {
    keymap_lines(lines(s))
}

/// A listing line gives an entry exactly when it has an `=` with at least
/// two words before it, the second of them a keycode; the entry's symbols
/// are then all the words after that first `=`, in order.
pub proof fn law_keymap_symbols(line: Seq<char>)
    ensures
        keymap_entry(line) is Some <==> (first_at(line, '=') matches Some(i) && words(line.take(i)).len()
            >= 2 && parse_u16(words(line.take(i))[1]) is Ok),
        keymap_entry(line) matches Some((k, v)) ==> (first_at(line, '=') matches Some(i) && parse_u16(
            words(line.take(i))[1],
        ) == Ok::<u16, IntError>(k) && words(v) == words(line.skip(i + 1))),
{
    if let Some(i) = first_at(line, '=') {
        crate::text::lemma_words_are_words(line.skip(i + 1));
        crate::text::lemma_words_join(words(line.skip(i + 1)));
    }
}

/// The keymap of a listing holds a keycode exactly when some line gives an
/// entry for it, and then the symbols of the last such line.
pub proof fn law_keymap_last_line(ls: Seq<Seq<char>>, k: u16)
    ensures
        keymap_lines(ls).contains_key(k) <==> exists|j: int|
            0 <= j < ls.len() && (#[trigger] keymap_entry(ls[j]) matches Some((k2, _)) && k2 == k),
        keymap_lines(ls).contains_key(k) ==> exists|j: int|
            0 <= j < ls.len() && #[trigger] keymap_entry(ls[j]) == Some((k, keymap_lines(ls)[k]))
                && forall|j2: int|
                j < j2 < ls.len() ==> !(#[trigger] keymap_entry(ls[j2]) matches Some((k3, _)) && k3 == k),
    decreases ls.len(),
{
    if ls.len() > 0 {
        let init = ls.drop_last();
        law_keymap_last_line(init, k);
        let n = ls.len() - 1;
        assert(ls[n] == ls.last());
        assert forall|j: int| 0 <= j < init.len() implies ls[j] == init[j] by {}
        match keymap_entry(ls.last()) {
            Some((k2, v)) => {
                if k2 == k {
                    assert(keymap_entry(ls[n]) == Some((k, keymap_lines(ls)[k])));
                } else {
                    if keymap_lines(init).contains_key(k) {
                        let j = choose|j: int|
                            0 <= j < init.len() && #[trigger] keymap_entry(init[j]) == Some((k, keymap_lines(init)[k]))
                                && forall|j2: int|
                                j < j2 < init.len() ==> !(#[trigger] keymap_entry(init[j2]) matches Some((k3, _)) && k3 == k);
                        assert(keymap_entry(ls[j]) == Some((k, keymap_lines(ls)[k])));
                        assert forall|j2: int| j < j2 < ls.len() implies !(#[trigger] keymap_entry(ls[j2]) matches Some((k3, _)) && k3 == k) by {
                            if j2 < init.len() {
                                assert(ls[j2] == init[j2]);
                            }
                        }
                    }
                    if exists|j: int| 0 <= j < ls.len() && (#[trigger] keymap_entry(ls[j]) matches Some((k4, _)) && k4 == k) {
                        let j = choose|j: int| 0 <= j < ls.len() && (#[trigger] keymap_entry(ls[j]) matches Some((k4, _)) && k4 == k);
                        assert(j < n);
                        assert(keymap_entry(init[j]) matches Some((k4, _)) && k4 == k);
                    }
                }
            },
            None => {
                if keymap_lines(init).contains_key(k) {
                    let j = choose|j: int|
                        0 <= j < init.len() && #[trigger] keymap_entry(init[j]) == Some((k, keymap_lines(init)[k]))
                            && forall|j2: int|
                            j < j2 < init.len() ==> !(#[trigger] keymap_entry(init[j2]) matches Some((k3, _)) && k3 == k);
                    assert(keymap_entry(ls[j]) == Some((k, keymap_lines(ls)[k])));
                    assert forall|j2: int| j < j2 < ls.len() implies !(#[trigger] keymap_entry(ls[j2]) matches Some((k3, _)) && k3 == k) by {
                        if j2 < init.len() {
                            assert(ls[j2] == init[j2]);
                        }
                    }
                }
                if exists|j: int| 0 <= j < ls.len() && (#[trigger] keymap_entry(ls[j]) matches Some((k4, _)) && k4 == k) {
                    let j = choose|j: int| 0 <= j < ls.len() && (#[trigger] keymap_entry(ls[j]) matches Some((k4, _)) && k4 == k);
                    assert(j < n);
                    assert(keymap_entry(init[j]) matches Some((k4, _)) && k4 == k);
                }
            },
        }
    }
}

/// Reads one line of the listing.
fn keymap_entry_of(line: &[char]) -> (r: Option<(u16, Vec<char>)>)
    ensures
        r matches Some((k, v)) ==> keymap_entry(line@) == Some((k, v@)),
        r is None ==> keymap_entry(line@) is None,
{
    let i = match first_at_of(line, '=') {
        Some(i) => i,
        None => return None,
    };
    proof {
        lemma_first_at_bound(line@, '=');
    }
    let n = line.len();
    assert(i < n);
    let before = words_of(&sub_chars(line, 0, i));
    assert(line@.subrange(0, i as int) == line@.take(i as int));
    if before.len() < 2 {
        return None;
    }
    assert(views(before@)[1] == before@[1]@);
    let k = match parse_u16_of(&before[1]) {
        Ok(k) => k,
        Err(_) => return None,
    };
    let after = words_of(&sub_chars(line, i + 1, line.len()));
    assert(line@.subrange(i + 1, line@.len() as int) == line@.skip(i + 1));
    Some((k, join_of(&after, ' ')))
}

/// The keymap that a `xmodmap -pke` listing shows.
pub fn maps(listing: &str) -> (m: BTreeMap<u16, String>)
    ensures
        keymap_view(m@) == keymap_text(listing@),
{
    let cs = chars_of(listing);
    let ls = lines_of(&cs);
    let mut m: BTreeMap<u16, String> = BTreeMap::new();
    assert(keymap_view(m@) =~= Map::empty());
    assert(views(ls@).take(0) =~= seq![]);
    for i in 0..ls.len()
        invariant
            views(ls@) == lines(listing@),
            keymap_view(m@) == keymap_lines(views(ls@).take(i as int)),
    {
        let ghost lv = views(ls@);
        assert(lv.take(i + 1).drop_last() == lv.take(i as int));
        assert(lv.take(i + 1).last() == ls@[i as int]@);
        match keymap_entry_of(&ls[i]) {
            Some((k, v)) => {
                let ghost before = m@;
                let s = string_of(&v);
                m.insert(k, s);
                assert(keymap_view(m@) =~= keymap_view(before).insert(k, v@));
            },
            None => {},
        }
    }
    assert(views(ls@).take(ls@.len() as int) == views(ls@));
    m
}

/// Whether a saved mapping differs from the live one (or the key is not
/// listed at all).
pub open spec fn is_drifted(current: Map<u16, Seq<char>>, rules: Map<u16, RuleView>, k: u16) -> bool {
    !(current.contains_key(k) && current[k] == rules[k].mapped)
}

/// The keycodes among `ks` whose saved mapping has drifted, in order.
pub open spec fn drifted_among(
    ks: Seq<u16>,
    current: Map<u16, Seq<char>>,
    rules: Map<u16, RuleView>,
) -> Seq<u16>
    decreases ks.len(),
{
    if ks.len() == 0 {
        seq![]
    } else {
        let d = drifted_among(ks.drop_last(), current, rules);
        if is_drifted(current, rules, ks.last()) {
            d.push(ks.last())
        } else {
            d
        }
    }
}

/// The keycodes whose saved mapping has drifted, in ascending order.
pub open spec fn drifted(current: Map<u16, Seq<char>>, rules: Map<u16, RuleView>) -> Seq<u16> {
    drifted_among(sorted_keys(rules.dom()), current, rules)
}

/// The keycodes whose saved mapping differs from the live keymap, in
/// ascending order.
pub fn drifted_keycodes(current: &BTreeMap<u16, String>, rules: &Rules) -> (out: Vec<u16>)
    ensures
        out@ == drifted(keymap_view(current@), rules_view(rules@)),
{
    let ks = keys_in_order(rules);
    let ghost cur = keymap_view(current@);
    let ghost rv = rules_view(rules@);
    let mut out: Vec<u16> = Vec::new();
    proof {
        lemma_keys_from(rules@.dom(), 0);
    }
    for i in 0..ks.len()
        invariant
            ks@ == sorted_keys(rules@.dom()),
            forall|x: u16| #[trigger] ks@.contains(x) <==> rules@.contains_key(x),
            cur == keymap_view(current@),
            rv == rules_view(rules@),
            out@ == drifted_among(ks@.take(i as int), cur, rv),
    {
        let k = ks[i];
        assert(ks@.contains(k));
        assert(ks@.take(i + 1).drop_last() == ks@.take(i as int));
        let rule = rules.get(&k).unwrap();
        let same = match current.get(&k) {
            Some(v) => *v == rule.mapped,
            None => false,
        };
        if !same {
            out.push(k);
        }
    }
    assert(ks@.take(ks@.len() as int) == ks@);
    assert(rv.dom() == rules@.dom());
    out
}

/// Whether a key symbol belongs to a modifier or lock key.
pub open spec fn modifier_word(w: Seq<char>) -> bool {
    ||| starts_with(w, "Shift_"@)
    ||| starts_with(w, "Control_"@)
    ||| starts_with(w, "Alt_"@)
    ||| starts_with(w, "Super_"@)
    ||| starts_with(w, "Meta_"@)
    ||| has_part(w, "Lock"@)
    ||| starts_with(w, "ISO_Level"@)
}

/// Whether a key's symbols make it a modifier or lock key, which the
/// library does not remap.
pub open spec fn is_protected(s: Seq<char>) -> bool {
    exists|i: int| 0 <= i < words(s).len() && modifier_word(#[trigger] words(s)[i])
}

/// A key is protected exactly when one of its symbols begins with
/// `Shift_`, `Control_`, `Alt_`, `Super_`, `Meta_` or `ISO_Level`, or holds
/// `Lock`.
pub proof fn law_protected_symbols(s: Seq<char>)
    ensures
        is_protected(s) <==> exists|i: int|
            0 <= i < words(s).len() && {
                let w = #[trigger] words(s)[i];
                ||| starts_with(w, "Shift_"@)
                ||| starts_with(w, "Control_"@)
                ||| starts_with(w, "Alt_"@)
                ||| starts_with(w, "Super_"@)
                ||| starts_with(w, "Meta_"@)
                ||| starts_with(w, "ISO_Level"@)
                ||| has_part(w, "Lock"@)
            },
{
}

/// Each of the modifier prefixes, and `Lock` anywhere, makes a symbol a
/// modifier symbol, whatever follows.
pub proof fn law_modifier_prefixes(w: Seq<char>)
    ensures
        starts_with(w, "Shift_"@) ==> modifier_word(w),
        starts_with(w, "Control_"@) ==> modifier_word(w),
        starts_with(w, "Alt_"@) ==> modifier_word(w),
        starts_with(w, "Super_"@) ==> modifier_word(w),
        starts_with(w, "Meta_"@) ==> modifier_word(w),
        starts_with(w, "ISO_Level"@) ==> modifier_word(w),
        has_part(w, "Lock"@) ==> modifier_word(w),
        modifier_word(w) ==> starts_with(w, "Shift_"@) || starts_with(w, "Control_"@) || starts_with(
            w,
            "Alt_"@,
        ) || starts_with(w, "Super_"@) || starts_with(w, "Meta_"@) || starts_with(w, "ISO_Level"@)
            || has_part(w, "Lock"@),
{
}

/// Whether one key symbol belongs to a modifier or lock key.
fn modifier_word_of(w: &[char]) -> (b: bool)
    ensures
        b == modifier_word(w@),
{
    starts_with_of(w, &chars_of("Shift_")) || starts_with_of(w, &chars_of("Control_"))
        || starts_with_of(w, &chars_of("Alt_")) || starts_with_of(w, &chars_of("Super_"))
        || starts_with_of(w, &chars_of("Meta_")) || has_part_of(w, &chars_of("Lock"))
        || starts_with_of(w, &chars_of("ISO_Level"))
}

/// Whether a key with these symbols is a modifier or lock key.
pub fn protected(s: &str) -> (b: bool)
    ensures
        b == is_protected(s@),
{
    let cs = chars_of(s);
    let ws = words_of(&cs);
    for i in 0..ws.len()
        invariant
            views(ws@) == words(s@),
            forall|j: int| 0 <= j < i ==> !modifier_word(#[trigger] words(s@)[j]),
    {
        assert(views(ws@)[i as int] == ws@[i as int]@);
        if modifier_word_of(&ws[i]) {
            return true;
        }
    }
    false
}

/// The name of the `i`-th function key, such as `F13`.
pub open spec fn launcher_name(i: int) -> Seq<char> {
    seq!['F'] + decimal(i as nat)
}

/// The first word of a line, or nothing when it has none.
pub open spec fn first_word(l: Seq<char>) -> Seq<char> {
    if words(l).len() > 0 {
        words(l)[0]
    } else {
        seq![]
    }
}

/// Whether a key symbol is already in use: some key produces it, or some
/// desktop shortcut is bound through it (its property name ends with it).
pub open spec fn symbol_taken(current: Map<u16, Seq<char>>, bindings: Seq<char>, sym: Seq<char>) -> bool {
    ||| exists|k: u16| #[trigger] current.contains_key(k) && words(current[k]).contains(sym)
    ||| exists|j: int|
        0 <= j < lines(bindings).len() && ends_with(first_word(#[trigger] lines(bindings)[j]), sym)
}

/// The first function key from `F{i}` to `F35` that is not in use.
pub open spec fn free_launcher_from(current: Map<u16, Seq<char>>, bindings: Seq<char>, i: int) -> Option<int>
    decreases 36 - i,
{
    if i > 35 {
        None
    } else if !symbol_taken(current, bindings, launcher_name(i)) {
        Some(i)
    } else {
        free_launcher_from(current, bindings, i + 1)
    }
}

/// The message when every launcher key is in use.
pub open spec fn no_launcher_text() -> Seq<char> {
    "No unused launcher key is available. Restore an unused mapping first."@
}

/// The first of `F13` to `F35` that no key produces and no shortcut uses.
pub open spec fn launcher_choice(current: Map<u16, Seq<char>>, bindings: Seq<char>) -> Result<Seq<char>, Seq<char>> {
    match free_launcher_from(current, bindings, 13) {
        Some(i) => Ok(launcher_name(i)),
        None => Err(no_launcher_text()),
    }
}

/// Whether `sym` is one of the words of some listed key.
#[verifier::loop_isolation(false)]
fn symbol_in_keymap(
    current: &BTreeMap<u16, String>,
    ks: &Vec<u16>,
    key_words: &Vec<Vec<Vec<char>>>,
    sym: &Vec<char>,
) -> (b: bool)
    requires
        forall|x: u16| #[trigger] ks@.contains(x) <==> current@.contains_key(x),
        key_words@.len() == ks@.len(),
        forall|j: int| 0 <= j < ks@.len() ==> views(#[trigger] key_words@[j]@) == words(current@[ks@[j]]@),
    ensures
        b == exists|k: u16| #[trigger] current@.contains_key(k) && words(current@[k]@).contains(sym@),
{
    for j in 0..key_words.len()
        invariant
            forall|x: u16| #[trigger] ks@.contains(x) <==> current@.contains_key(x),
            key_words@.len() == ks@.len(),
            forall|j: int| 0 <= j < ks@.len() ==> views(#[trigger] key_words@[j]@) == words(current@[ks@[j]]@),
            forall|m: int| 0 <= m < j ==> !words(current@[ks@[m]]@).contains(sym@),
    {
        let ws = &key_words[j];
        assert(views(key_words@[j as int]@) == words(current@[ks@[j as int]]@));
        for t in 0..ws.len()
            invariant
                views(ws@) == words(current@[ks@[j as int]]@),
                forall|m: int| 0 <= m < t ==> views(ws@)[m] != sym@,
        {
            assert(views(ws@)[t as int] == ws@[t as int]@);
            if same_chars(&ws[t], sym) {
                proof {
                    let k = ks@[j as int];
                    assert(ks@.contains(k));
                    assert(words(current@[k]@)[t as int] == sym@);
                    assert(current@.contains_key(k));
                    assert(words(current@[k]@).contains(sym@));
                }
                return true;
            }
        }
        proof {
            let w = words(current@[ks@[j as int]]@);
            if w.contains(sym@) {
                let t = choose|t: int| 0 <= t < w.len() && w[t] == sym@;
                assert(views(ws@)[t] == sym@);
            }
        }
    }
    proof {
        assert forall|k: u16| #[trigger] current@.contains_key(k) implies !words(current@[k]@).contains(sym@) by {
            assert(ks@.contains(k));
            let m = choose|m: int| 0 <= m < ks@.len() && ks@[m] == k;
        }
    }
    false
}

/// Whether some binding line's first word ends with `sym`.
fn symbol_in_bindings(firsts: &Vec<Vec<char>>, sym: &Vec<char>, ghost_lines: Ghost<Seq<Seq<char>>>) -> (b: bool)
    requires
        firsts@.len() == ghost_lines@.len(),
        forall|j: int| 0 <= j < firsts@.len() ==> (#[trigger] firsts@[j])@ == first_word(ghost_lines@[j]),
    ensures
        b == exists|j: int|
            0 <= j < ghost_lines@.len() && ends_with(first_word(#[trigger] ghost_lines@[j]), sym@),
{
    for j in 0..firsts.len()
        invariant
            firsts@.len() == ghost_lines@.len(),
            forall|j: int| 0 <= j < firsts@.len() ==> (#[trigger] firsts@[j])@ == first_word(ghost_lines@[j]),
            forall|m: int| 0 <= m < j ==> !ends_with(first_word(#[trigger] ghost_lines@[m]), sym@),
    {
        assert(firsts@[j as int]@ == first_word(ghost_lines@[j as int]));
        if ends_with_of(&firsts[j], sym) {
            return true;
        }
    }
    false
}

/// Picks the first of `F13` to `F35` that no listed key produces and no
/// desktop shortcut in `bindings` (an `xfconf-query -lv` listing) uses.
pub fn available_launcher_symbol(current: &BTreeMap<u16, String>, bindings: &str) -> (r: Result<String, String>)
    ensures
        r matches Ok(s) ==> launcher_choice(keymap_view(current@), bindings@) == Ok::<Seq<char>, Seq<char>>(s@),
        r matches Err(e) ==> launcher_choice(keymap_view(current@), bindings@) == Err::<Seq<char>, Seq<char>>(e@),
{
    let ks = keys_in_order(current);
    proof {
        lemma_keys_from(current@.dom(), 0);
    }
    let mut key_words: Vec<Vec<Vec<char>>> = Vec::new();
    for j in 0..ks.len()
        invariant
            forall|x: u16| #[trigger] ks@.contains(x) <==> current@.contains_key(x),
            key_words@.len() == j,
            forall|m: int| 0 <= m < j ==> views(#[trigger] key_words@[m]@) == words(current@[ks@[m]]@),
    {
        let k = ks[j];
        assert(ks@.contains(k));
        let v = current.get(&k).unwrap();
        key_words.push(words_of(&chars_of(v.as_str())));
    }
    let bl = lines_of(&chars_of(bindings));
    let ghost blv = views(bl@);
    let mut firsts: Vec<Vec<char>> = Vec::new();
    for j in 0..bl.len()
        invariant
            blv == views(bl@),
            firsts@.len() == j,
            forall|m: int| 0 <= m < j ==> (#[trigger] firsts@[m])@ == first_word(blv[m]),
    {
        let ws = words_of(&bl[j]);
        assert(blv[j as int] == bl@[j as int]@);
        if ws.len() > 0 {
            assert(views(ws@)[0] == ws@[0]@);
            firsts.push(ws[0].clone());
        } else {
            firsts.push(Vec::new());
        }
    }
    let ghost cur = keymap_view(current@);
    let mut i: u16 = 13;
    while i <= 35
        invariant
            13 <= i <= 36,
            cur == keymap_view(current@),
            blv == lines(bindings@),
            forall|x: u16| #[trigger] ks@.contains(x) <==> current@.contains_key(x),
            key_words@.len() == ks@.len(),
            forall|m: int| 0 <= m < ks@.len() ==> views(#[trigger] key_words@[m]@) == words(current@[ks@[m]]@),
            firsts@.len() == blv.len(),
            forall|m: int| 0 <= m < firsts@.len() ==> (#[trigger] firsts@[m])@ == first_word(blv[m]),
            free_launcher_from(cur, bindings@, 13) == free_launcher_from(cur, bindings@, i as int),
        decreases 36 - i,
    {
        let mut name: Vec<char> = Vec::new();
        name.push('F');
        let mut digits = decimal_of(i as u64);
        name.append(&mut digits);
        assert(name@ == launcher_name(i as int));
        let in_keys = symbol_in_keymap(current, &ks, &key_words, &name);
        let in_bindings = symbol_in_bindings(&firsts, &name, Ghost(blv));
        proof {
            if in_keys {
                let k = choose|k: u16| #[trigger] current@.contains_key(k) && words(current@[k]@).contains(name@);
                assert(cur.contains_key(k) && words(cur[k]).contains(name@));
            } else {
                assert forall|k: u16| #[trigger] cur.contains_key(k) implies !words(cur[k]).contains(name@) by {
                    assert(current@.contains_key(k));
                }
            }
            assert(symbol_taken(cur, bindings@, name@) == (in_keys || in_bindings));
        }
        if !in_keys && !in_bindings {
            return Ok(string_of(&name));
        }
        i = i + 1;
    }
    Err("No unused launcher key is available. Restore an unused mapping first.".to_owned())
}

/// The drifted keycodes among `ks` are those of `ks` whose mapping
/// drifted.
proof fn lemma_drifted_among(
    ks: Seq<u16>,
    current: Map<u16, Seq<char>>,
    rules: Map<u16, RuleView>,
    k: u16,
)
    ensures
        drifted_among(ks, current, rules).contains(k) <==> (ks.contains(k) && is_drifted(
            current,
            rules,
            k,
        )),
    decreases ks.len(),
{
    if ks.len() > 0 {
        let init = ks.drop_last();
        lemma_drifted_among(init, current, rules, k);
        let d = drifted_among(init, current, rules);
        assert(ks == init.push(ks.last()));
        if ks.contains(k) && k != ks.last() {
            let i = choose|i: int| 0 <= i < ks.len() && ks[i] == k;
            assert(init[i] == k);
        }
        if init.contains(k) {
            let i = choose|i: int| 0 <= i < init.len() && init[i] == k;
            assert(ks[i] == k);
        }
        if d.push(ks.last()).contains(k) && k != ks.last() {
            let i = choose|i: int| 0 <= i < d.len() + 1 && d.push(ks.last())[i] == k;
            assert(d[i] == k);
        }
        if is_drifted(current, rules, ks.last()) && d.contains(k) {
            let i = choose|i: int| 0 <= i < d.len() && d[i] == k;
            assert(d.push(ks.last())[i] == k);
        }
        if is_drifted(current, rules, ks.last()) && k == ks.last() {
            assert(d.push(ks.last())[d.len() as int] == k);
        }
    }
}

/// A keycode is listed as drifted exactly when a rule is saved for it and
/// the live keymap does not show the rule's mapping for it.
pub proof fn law_drifted_exactly(current: Map<u16, Seq<char>>, rules: Map<u16, RuleView>, k: u16)
    ensures
        drifted(current, rules).contains(k) <==> (rules.contains_key(k) && !(current.contains_key(k)
            && current[k] == rules[k].mapped)),
{
    lemma_drifted_among(sorted_keys(rules.dom()), current, rules, k);
    lemma_keys_from(rules.dom(), 0);
}

/// What the search for a free launcher from `F{i}` finds.
proof fn lemma_free_launcher(current: Map<u16, Seq<char>>, bindings: Seq<char>, i: int)
    requires
        13 <= i <= 36,
    ensures
        match free_launcher_from(current, bindings, i) {
            Some(j) => i <= j <= 35 && !symbol_taken(current, bindings, launcher_name(j)) && forall|
                t: int,
            |
                i <= t < j ==> symbol_taken(current, bindings, #[trigger] launcher_name(t)),
            None => forall|t: int|
                i <= t <= 35 ==> symbol_taken(current, bindings, #[trigger] launcher_name(t)),
        },
    decreases 36 - i,
{
    if i <= 35 {
        lemma_free_launcher(current, bindings, i + 1);
    }
}

/// The launcher symbol chosen is one of `F13` to `F35` that no key
/// produces and no shortcut uses, and every one before it is in use; when
/// none is chosen, all of them are in use.
pub proof fn law_launcher_free(current: Map<u16, Seq<char>>, bindings: Seq<char>)
    ensures
        launcher_choice(current, bindings) matches Ok(s) ==> exists|j: int|
            13 <= j <= 35 && s == #[trigger] launcher_name(j) && !symbol_taken(current, bindings, s)
                && forall|t: int| 13 <= t < j ==> symbol_taken(current, bindings, #[trigger] launcher_name(t)),
        launcher_choice(current, bindings) is Err ==> forall|t: int|
            13 <= t <= 35 ==> symbol_taken(current, bindings, #[trigger] launcher_name(t)),
{
    lemma_free_launcher(current, bindings, 13);
    if let Some(j) = free_launcher_from(current, bindings, 13) {
        assert(launcher_name(j) == launcher_name(j));
    }
}

/// The desktop-shortcut property that launches through key symbol `s`.
pub open spec fn property_text(s: Seq<char>) -> Seq<char> {
    "/commands/custom/"@ + s
}

/// The desktop-shortcut property that launches through key symbol `s`.
pub fn property(s: &str) -> (p: String)
    ensures
        p@ == property_text(s@),
{
    let mut p = "/commands/custom/".to_owned();
    p.append(s);
    p
}

} // verus!
