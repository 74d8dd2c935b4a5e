//! Comparing the live X11 keysym table with the saved mappings, without
//! running `xmodmap`: which keysyms each saved mapping stands for, which
//! window of keycodes to read, and which keycodes differ.

use vstd::prelude::*;
use vstd::string::*;
use crate::text::{chars_of, decimal, decimal_of, same_chars, string_of, views, words, words_of};
use crate::rules::{RuleView, Rules, rules_view};
use crate::order::{keys_in_order, lemma_keys_from, sorted_keys};

verus! {

/// The key symbol that stands for no symbol.
pub open spec fn no_symbol() -> Seq<char> {
    "NoSymbol"@
}

/// The message for a key symbol that X11 does not know.
pub open spec fn unknown_symbol_text(w: Seq<char>) -> Seq<char> {
    "Unknown X11 key symbol: "@ + w
}

/// The message for a mapping with more symbols than the keymap has columns.
pub open spec fn too_wide_text() -> Seq<char> {
    "Saved mapping is wider than the current X11 keymap"@
}

/// The keysyms of the words `ws`, left to right, given what looking up each
/// word gave (a keysym, 0 for an unknown name, or an error): `NoSymbol` is
/// 0 whatever its lookup gave; the first failing word decides the error.
pub open spec fn keysym_codes(ws: Seq<Seq<char>>, looks: Seq<Result<u64, Seq<char>>>) -> Result<
    Seq<u64>,
    Seq<char>,
>
    decreases ws.len(),
{
    if ws.len() == 0 {
        Ok(seq![])
    } else {
        match keysym_codes(ws.drop_last(), looks) {
            Err(e) => Err(e),
            Ok(cs) => {
                let w = ws.last();
                if w == no_symbol() {
                    Ok(cs.push(0))
                } else {
                    match looks[ws.len() - 1] {
                        Err(e) => Err(e),
                        Ok(c) => if c == 0 {
                            Err(unknown_symbol_text(w))
                        } else {
                            Ok(cs.push(c))
                        },
                    }
                }
            },
        }
    }
}

/// The row of `width` keysyms that a mapping stands for: its symbols' keysyms,
/// padded with 0.
pub open spec fn expected_row(mapping: Seq<char>, looks: Seq<Result<u64, Seq<char>>>, width: nat) -> Result<
    Seq<u64>,
    Seq<char>,
> {
    match keysym_codes(words(mapping), looks) {
        Err(e) => Err(e),
        Ok(cs) => if cs.len() > width {
            Err(too_wide_text())
        } else {
            Ok(cs + Seq::new((width - cs.len()) as nat, |i: int| 0u64))
        },
    }
}

/// Lookup results as texts.
pub open spec fn looks_view(v: Seq<Result<u64, String>>) -> Seq<Result<u64, Seq<char>>> {
    v.map_values(
        |r: Result<u64, String>|
            match r {
                Ok(c) => Ok(c),
                Err(e) => Err(e@),
            },
    )
}

/// The words of a mapping, whose keysyms the caller looks up in this order.
pub fn symbol_names(mapping: &str) -> (names: Vec<String>)
    ensures
        names@.map_values(|s: String| s@) == words(mapping@),
{
    let ws = words_of(&chars_of(mapping));
    let mut names: Vec<String> = Vec::new();
    for i in 0..ws.len()
        invariant
            views(ws@) == words(mapping@),
            names@.map_values(|s: String| s@) == views(ws@).take(i as int),
    {
        let ghost before = names@;
        let name = string_of(&ws[i]);
        names.push(name);
        assert(names@ == before.push(name));
        assert(views(ws@)[i as int] == ws@[i as int]@);
        assert(names@.map_values(|s: String| s@) =~= before.map_values(|s: String| s@).push(name@));
        assert(views(ws@).take(i + 1) =~= views(ws@).take(i as int).push(ws@[i as int]@));
    }
    assert(views(ws@).take(ws@.len() as int) == views(ws@));
    names
}

/// The row of `width` keysyms that a saved mapping stands for, given the
/// lookup of each of its words.
pub fn expected_keysyms(mapping: &str, width: usize, lookups: &Vec<Result<u64, String>>) -> (r: Result<Vec<u64>, String>)
    requires
        lookups@.len() == words(mapping@).len(),
    ensures
        r matches Ok(row) ==> expected_row(mapping@, looks_view(lookups@), width as nat) == Ok::<
            Seq<u64>,
            Seq<char>,
        >(row@),
        r matches Err(e) ==> expected_row(mapping@, looks_view(lookups@), width as nat) == Err::<
            Seq<u64>,
            Seq<char>,
        >(e@),
{
    let ws = words_of(&chars_of(mapping));
    let ghost lv = looks_view(lookups@);
    let nosym = chars_of("NoSymbol");
    let mut row: Vec<u64> = Vec::new();
    for i in 0..ws.len()
        invariant
            views(ws@) == words(mapping@),
            lookups@.len() == ws@.len(),
            lv == looks_view(lookups@),
            nosym@ == no_symbol(),
            keysym_codes(views(ws@).take(i as int), lv) == Ok::<Seq<u64>, Seq<char>>(row@),
    {
        let ghost wv = views(ws@);
        assert(wv.take(i + 1).drop_last() == wv.take(i as int));
        assert(wv.take(i + 1).last() == ws@[i as int]@);
        if same_chars(&ws[i], &nosym) {
            row.push(0);
        } else {
            match &lookups[i] {
                Err(e) => {
                    proof {
                        lemma_codes_error_stays(wv, lv, i + 1);
                    }
                    return Err(e.clone());
                },
                Ok(c) => {
                    if *c == 0 {
                        proof {
                            lemma_codes_error_stays(wv, lv, i + 1);
                        }
                        let mut m = "Unknown X11 key symbol: ".to_owned();
                        m.append(string_of(&ws[i]).as_str());
                        return Err(m);
                    }
                    row.push(*c);
                },
            }
        }
    }
    assert(views(ws@).take(ws@.len() as int) == views(ws@));
    if row.len() > width {
        return Err("Saved mapping is wider than the current X11 keymap".to_owned());
    }
    let ghost filled = row@;
    while row.len() < width
        invariant
            filled.len() <= row@.len() <= width,
            row@ == filled + Seq::new((row@.len() - filled.len()) as nat, |i: int| 0u64),
        decreases width - row.len(),
    {
        row.push(0);
        assert(row@ =~= filled + Seq::new((row@.len() - filled.len()) as nat, |i: int| 0u64));
    }
    Ok(row)
}

/// Once a word fails, the later words change nothing.
proof fn lemma_codes_error_stays(ws: Seq<Seq<char>>, looks: Seq<Result<u64, Seq<char>>>, n: int)
    requires
        0 <= n <= ws.len(),
        keysym_codes(ws.take(n), looks) is Err,
    ensures
        keysym_codes(ws, looks) == keysym_codes(ws.take(n), looks),
    decreases ws.len() - n,
{
    if n < ws.len() {
        assert(ws.take(n + 1).drop_last() == ws.take(n));
        lemma_codes_error_stays(ws, looks, n + 1);
    } else {
        assert(ws.take(n) == ws);
    }
}

/// The window of keycodes to read: from the lowest saved keycode to the
/// highest, which must be an X11 keycode (at most 255); none without rules.
pub open spec fn window(m: Map<u16, RuleView>) -> Result<Option<(u16, u16)>, Seq<char>> {
    let ks = sorted_keys(m.dom());
    if ks.len() == 0 {
        Ok(None)
    } else if ks.last() > 255 {
        Err("Invalid X11 keycode: "@ + decimal(ks.last() as nat))
    } else {
        Ok(Some((ks[0], (ks.last() - ks[0] + 1) as u16)))
    }
}

/// The first keycode and the number of keycodes to read from the X11
/// keymap for the rules.
pub fn keysym_window(rules: &Rules) -> (r: Result<Option<(u16, u16)>, String>)
    ensures
        r matches Ok(w) ==> window(rules_view(rules@)) == Ok::<Option<(u16, u16)>, Seq<char>>(w),
        r matches Err(e) ==> window(rules_view(rules@)) == Err::<Option<(u16, u16)>, Seq<char>>(e@),
{
    let ks = keys_in_order(rules);
    assert(rules_view(rules@).dom() == rules@.dom());
    if ks.len() == 0 {
        return Ok(None);
    }
    proof {
        lemma_keys_from(rules@.dom(), 0);
    }
    let first = ks[0];
    let last = ks[ks.len() - 1];
    if last > 255 {
        let mut m = "Invalid X11 keycode: ".to_owned();
        m.append(string_of(&decimal_of(last as u64)).as_str());
        return Err(m);
    }
    if ks.len() > 1 {
        assert(ks@[0] < ks@[ks@.len() - 1]);
    }
    Ok(Some((first, last - first + 1)))
}

/// The message when X11 gives no keymap.
pub open spec fn unreadable_text() -> Seq<char> {
    "Cannot read the current X11 keyboard mapping"@
}

/// The message when X11 gives a keymap without columns.
pub open spec fn empty_keymap_text() -> Seq<char> {
    "X11 returned an empty keyboard mapping"@
}

/// The number of keysym columns of the X11 keymap that was read (`None`
/// when none could be read).
pub fn table_width(columns: Option<i32>) -> (r: Result<usize, String>)
    ensures
        columns is None ==> (r matches Err(e) && e@ == unreadable_text()),
        columns matches Some(w) ==> (if w <= 0 {
            (r matches Err(e) && e@ == empty_keymap_text())
        } else {
            r == Ok::<usize, String>(w as usize)
        }),
{
    match columns {
        None => Err("Cannot read the current X11 keyboard mapping".to_owned()),
        Some(w) => if w <= 0 {
            Err("X11 returned an empty keyboard mapping".to_owned())
        } else {
            Ok(w as usize)
        },
    }
}

/// The row of keycode `k` in a table of `width` columns that starts at
/// keycode `first`.
pub open spec fn row_of(table: Seq<u64>, first: u16, width: nat, k: u16) -> Seq<u64> {
    table.subrange((k - first) * width, (k - first + 1) * width)
}

/// Comparing the rules from the `i`-th in key order with the live table:
/// the keycodes whose row differs from what their mapping stands for, or
/// the first mapping that cannot be turned into keysyms.
pub open spec fn live_drift_from(
    m: Map<u16, RuleView>,
    ks: Seq<u16>,
    i: int,
    first: u16,
    width: nat,
    table: Seq<u64>,
    looks: Seq<Seq<Result<u64, Seq<char>>>>,
) -> Result<Seq<u16>, Seq<char>>
    decreases i,
{
    if i <= 0 {
        Ok(seq![])
    } else {
        match live_drift_from(m, ks, i - 1, first, width, table, looks) {
            Err(e) => Err(e),
            Ok(d) => {
                let k = ks[i - 1];
                match expected_row(m[k].mapped, looks[i - 1], width) {
                    Err(e) => Err(e),
                    Ok(row) => if row_of(table, first, width, k) != row {
                        Ok(d.push(k))
                    } else {
                        Ok(d)
                    },
                }
            },
        }
    }
}

/// The keycodes, in ascending order, whose live keysyms differ from what
/// their saved mapping stands for.
pub open spec fn live_drift(
    m: Map<u16, RuleView>,
    first: u16,
    width: nat,
    table: Seq<u64>,
    looks: Seq<Seq<Result<u64, Seq<char>>>>,
) -> Result<Seq<u16>, Seq<char>> {
    let ks = sorted_keys(m.dom());
    live_drift_from(m, ks, ks.len() as int, first, width, table, looks)
}

/// The lookups of all rules, as texts.
pub open spec fn all_looks_view(v: Seq<Vec<Result<u64, String>>>) -> Seq<Seq<Result<u64, Seq<char>>>> {
    v.map_values(|l: Vec<Result<u64, String>>| looks_view(l@))
}

/// Whether two rows of keysyms are equal.
fn same_row(table: &Vec<u64>, off: usize, row: &Vec<u64>) -> (b: bool)
    requires
        off + row.len() <= table.len(),
    ensures
        b == (table@.subrange(off as int, off + row@.len()) == row@),
{
    for j in 0..row.len()
        invariant
            off + row.len() <= table.len(),
            forall|t: int| 0 <= t < j ==> table@[off + t] == row@[t],
    {
        if table[off + j] != row[j] {
            assert(table@.subrange(off as int, off + row@.len())[j as int] != row@[j as int]);
            return false;
        }
    }
    assert(table@.subrange(off as int, off + row@.len()) =~= row@);
    true
}

/// The keycodes whose live keysyms, in the table of `width` columns read
/// from keycode `first` on, differ from what their saved mapping stands
/// for; `lookups` holds, for each rule in key order, the lookup of each
/// word of its mapping.
pub fn live_drifted_keycodes(
    rules: &Rules,
    first: u16,
    width: usize,
    table: &Vec<u64>,
    lookups: &Vec<Vec<Result<u64, String>>>,
) -> (r: Result<Vec<u16>, String>)
    requires
        window(rules_view(rules@)) matches Ok(Some((f, count))) && f == first && table@.len() == count
            * width,
        lookups@.len() == rules@.dom().len(),
        forall|j: int|
            0 <= j < lookups@.len() ==> (#[trigger] lookups@[j])@.len() == words(
                rules@[sorted_keys(rules@.dom())[j]].mapped@,
            ).len(),
    ensures
        r matches Ok(d) ==> live_drift(
            rules_view(rules@),
            first,
            width as nat,
            table@,
            all_looks_view(lookups@),
        ) == Ok::<Seq<u16>, Seq<char>>(d@),
        r matches Err(e) ==> live_drift(
            rules_view(rules@),
            first,
            width as nat,
            table@,
            all_looks_view(lookups@),
        ) == Err::<Seq<u16>, Seq<char>>(e@),
{
    let ks = keys_in_order(rules);
    let ghost m = rules_view(rules@);
    assert(m.dom() == rules@.dom());
    let ghost lv = all_looks_view(lookups@);
    proof {
        lemma_keys_from(rules@.dom(), 0);
        crate::order::lemma_sorted_keys_len(rules@.dom());
    }
    let ghost count: int = match window(m) {
        Ok(Some((_, c))) => c as int,
        _ => 0,
    };
    let mut d: Vec<u16> = Vec::new();
    for i in 0..ks.len()
        invariant
            ks@ == sorted_keys(m.dom()),
            ks@.len() == lookups@.len(),
            forall|a: int, b: int| 0 <= a < b < ks@.len() ==> ks@[a] < ks@[b],
            forall|x: u16| #[trigger] ks@.contains(x) <==> rules@.contains_key(x),
            ks@.len() > 0 ==> first == ks@[0] && count == ks@[ks@.len() - 1] - first + 1,
            table.len() == count * width,
            m == rules_view(rules@),
            m.dom() == rules@.dom(),
            lv == all_looks_view(lookups@),
            forall|j: int|
                0 <= j < lookups@.len() ==> (#[trigger] lookups@[j])@.len() == words(
                    rules@[sorted_keys(rules@.dom())[j]].mapped@,
                ).len(),
            live_drift_from(m, ks@, i as int, first, width as nat, table@, lv) == Ok::<
                Seq<u16>,
                Seq<char>,
            >(d@),
    {
        let k = ks[i];
        assert(ks@.contains(k));
        let rule = rules.get(&k).unwrap();
        assert(lookups@[i as int]@.len() == words(rule.mapped@).len());
        assert(lv[i as int] == looks_view(lookups@[i as int]@));
        let row = match expected_keysyms(rule.mapped.as_str(), width, &lookups[i]) {
            Ok(row) => row,
            Err(e) => {
                proof {
                    lemma_live_error_stays(m, ks@, i as int + 1, ks@.len() as int, first, width as nat, table@, lv);
                }
                return Err(e);
            },
        };
        let ghost rel: int = k - first;
        assert(0 <= rel < count) by {
            if i > 0 {
                assert(ks@[0] < ks@[i as int]);
            }
            if i < ks@.len() - 1 {
                assert(ks@[i as int] < ks@[ks@.len() - 1]);
            }
        }
        assert(rel * width + width <= count * width) by (nonlinear_arith)
            requires
                0 <= rel < count,
        ;
        assert((rel + 1) * width == rel * width + width) by (nonlinear_arith);
        assert(rel * width <= table.len());
        let off = (k - first) as usize * width;
        assert(row@.len() == width);
        if !same_row(table, off, &row) {
            d.push(k);
        }
    }
    proof {
        assert(live_drift(m, first, width as nat, table@, lv) == live_drift_from(m, ks@, ks@.len() as int, first, width as nat, table@, lv));
    }
    Ok(d)
}

/// Once a rule fails, the later rules change nothing.
proof fn lemma_live_error_stays(
    m: Map<u16, RuleView>,
    ks: Seq<u16>,
    i: int,
    n: int,
    first: u16,
    width: nat,
    table: Seq<u64>,
    looks: Seq<Seq<Result<u64, Seq<char>>>>,
)
    requires
        1 <= i <= n,
        live_drift_from(m, ks, i, first, width, table, looks) is Err,
    ensures
        live_drift_from(m, ks, n, first, width, table, looks) == live_drift_from(m, ks, i, first, width, table, looks),
    decreases n - i,
{
    if n > i {
        lemma_live_error_stays(m, ks, i, n - 1, first, width, table, looks);
    }
}

} // verus!
