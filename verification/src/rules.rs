//! Saved rules and their file format: one line per keycode, in ascending
//! keycode order, with the keycode in decimal and four tab-separated
//! hex-encoded text fields.

use vstd::prelude::*;
use vstd::string::*;
use std::collections::BTreeMap;
use crate::text::{
    chars_of, decimal, decimal_of, int_error_text, is_digit, join, lemma_decimal_chars,
    lemma_join_free, lemma_parse_decimal, lemma_split_join, lemma_split_scan_extend,
    lemma_split_scan_sep, lines, lines_of, parse_u16, parse_u16_of, split, split_of, split_scan,
    string_of, strip_cr, views,
};
use crate::hexcode::{
    hex_chars, hex_text, hex_value, law_unhex_hex, lemma_hex_bytes, unhex_chars, unhex_text,
};
use crate::order::{keys_in_order, lemma_keys_from, sorted_keys};

verus! {

/// What a physical key was, what it is now, and which application it
/// launches through which desktop shortcut (empty when none).
#[derive(Debug)]
pub struct Rule {
    /// The key symbols the key had before the rule.
    pub original: String,
    /// The key symbols the rule gives the key.
    pub mapped: String,
    /// The command the key launches, or empty.
    pub command: String,
    /// The key symbol whose desktop shortcut launches the command.
    pub shortcut: String,
}

/// A rule as four texts.
pub struct RuleView {
    pub original: Seq<char>,
    pub mapped: Seq<char>,
    pub command: Seq<char>,
    pub shortcut: Seq<char>,
}

impl View for Rule {
    type V = RuleView;

    open spec fn view(&self) -> RuleView {
        RuleView {
            original: self.original@,
            mapped: self.mapped@,
            command: self.command@,
            shortcut: self.shortcut@,
        }
    }
}

impl Clone for Rule {
    fn clone(&self) -> (r: Self)
        ensures
            r@ == self@,
    {
        Rule {
            original: self.original.clone(),
            mapped: self.mapped.clone(),
            command: self.command.clone(),
            shortcut: self.shortcut.clone(),
        }
    }
}

/// The saved rules, by keycode.
pub type Rules = BTreeMap<u16, Rule>;

/// The rules as texts.
pub open spec fn rules_view(m: Map<u16, Rule>) -> Map<u16, RuleView> {
    m.map_values(|r: Rule| r@)
}

/// The fields of a rule's line.
pub open spec fn rule_fields(k: u16, r: RuleView) -> Seq<Seq<char>> {
    seq![
        decimal(k as nat),
        hex_text(r.original),
        hex_text(r.mapped),
        hex_text(r.command),
        hex_text(r.shortcut),
    ]
}

/// A rule's line, without its line ending.
pub open spec fn rule_line(k: u16, r: RuleView) -> Seq<char> {
    join(rule_fields(k, r), '\t')
}

/// Lines, each ended by `\n`.
pub open spec fn line_block(ls: Seq<Seq<char>>) -> Seq<char>
    decreases ls.len(),
{
    if ls.len() == 0 {
        seq![]
    } else {
        line_block(ls.drop_last()) + ls.last() + seq!['\n']
    }
}

/// The rules file: one line per rule, in ascending keycode order.
pub open spec fn encode_rules(m: Map<u16, RuleView>) -> Seq<char> {
    line_block(sorted_keys(m.dom()).map_values(|k: u16| rule_line(k, m[k])))
}

/// The message of a line without exactly five fields.
pub open spec fn bad_rule_text() -> Seq<char> {
    "Invalid saved rule"@
}

/// The message of a keycode outside 8..=255 or seen before.
pub open spec fn bad_keycode_text() -> Seq<char> {
    "Invalid or duplicate keycode"@
}

/// The rule held by four encoded fields: the first field that fails to
/// decode gives the error.
pub open spec fn decode_fields(f: Seq<Seq<char>>) -> Result<RuleView, Seq<char>> {
    match unhex_text(f[1]) {
        Err(e) => Err(e),
        Ok(original) => match unhex_text(f[2]) {
            Err(e) => Err(e),
            Ok(mapped) => match unhex_text(f[3]) {
                Err(e) => Err(e),
                Ok(command) => match unhex_text(f[4]) {
                    Err(e) => Err(e),
                    Ok(shortcut) => Ok(RuleView { original, mapped, command, shortcut }),
                },
            },
        },
    }
}

/// Reading one more line into the rules read so far.
pub open spec fn decode_line(m: Map<u16, RuleView>, line: Seq<char>) -> Result<
    Map<u16, RuleView>,
    Seq<char>,
> {
    let f = split(line, '\t');
    if f.len() != 5 {
        Err(bad_rule_text())
    } else {
        match parse_u16(f[0]) {
            Err(e) => Err(int_error_text(e)),
            Ok(k) => if !(8 <= k && k <= 255) || m.contains_key(k) {
                Err(bad_keycode_text())
            } else {
                match decode_fields(f) {
                    Err(e) => Err(e),
                    Ok(r) => Ok(m.insert(k, r)),
                }
            },
        }
    }
}

/// Reading lines in order: the first line that fails gives the error.
pub open spec fn decode_lines(ls: Seq<Seq<char>>) -> Result<Map<u16, RuleView>, Seq<char>>
    decreases ls.len(),
{
    if ls.len() == 0 {
        Ok(Map::empty())
    } else {
        match decode_lines(ls.drop_last()) {
            Err(e) => Err(e),
            Ok(m) => decode_line(m, ls.last()),
        }
    }
}

/// The rules that a rules file holds.
pub open spec fn decode_text(s: Seq<char>) -> Result<Map<u16, RuleView>, Seq<char>> {
    decode_lines(lines(s))
}

/// Once reading stops at a line, the later lines change nothing.
proof fn lemma_decode_error_stays(ls: Seq<Seq<char>>, n: int)
    requires
        0 <= n <= ls.len(),
        decode_lines(ls.take(n)) is Err,
    ensures
        decode_lines(ls) == decode_lines(ls.take(n)),
    decreases ls.len() - n,
{
    if n < ls.len() {
        assert(ls.take(n + 1).drop_last() == ls.take(n));
        lemma_decode_error_stays(ls, n + 1);
    } else {
        assert(ls.take(n) == ls);
    }
}

/// Reads the rules of one line's fields.
fn decode_fields_of(f: &Vec<Vec<char>>) -> (r: Result<Rule, String>)
    requires
        f@.len() == 5,
    ensures
        r matches Ok(rule) ==> decode_fields(views(f@)) == Ok::<RuleView, Seq<char>>(rule@),
        r matches Err(e) ==> decode_fields(views(f@)) == Err::<RuleView, Seq<char>>(e@),
{
    let ghost fv = views(f@);
    assert(fv[1] == f@[1]@ && fv[2] == f@[2]@ && fv[3] == f@[3]@ && fv[4] == f@[4]@);
    let original = match unhex_chars(&f[1]) {
        Ok(t) => t,
        Err(e) => return Err(e),
    };
    let mapped = match unhex_chars(&f[2]) {
        Ok(t) => t,
        Err(e) => return Err(e),
    };
    let command = match unhex_chars(&f[3]) {
        Ok(t) => t,
        Err(e) => return Err(e),
    };
    let shortcut = match unhex_chars(&f[4]) {
        Ok(t) => t,
        Err(e) => return Err(e),
    };
    Ok(Rule { original, mapped, command, shortcut })
}

/// Reads the rules of a rules file; the first line that fails to read
/// decides the error.
pub fn decode(s: &str) -> (r: Result<Rules, String>)
    ensures
        r matches Ok(m) ==> decode_text(s@) == Ok::<Map<u16, RuleView>, Seq<char>>(
            rules_view(m@),
        ),
        r matches Err(e) ==> decode_text(s@) == Err::<Map<u16, RuleView>, Seq<char>>(e@),
{
    let cs = chars_of(s);
    let ls = lines_of(&cs);
    let mut r: Rules = BTreeMap::new();
    assert(rules_view(r@) =~= Map::empty());
    assert(views(ls@).take(0) =~= seq![]);
    for i in 0..ls.len()
        invariant
            views(ls@) == lines(s@),
            decode_lines(views(ls@).take(i as int)) == Ok::<Map<u16, RuleView>, Seq<char>>(
                rules_view(r@),
            ),
    {
        let ghost lv = views(ls@);
        assert(lv.take(i + 1).drop_last() == lv.take(i as int));
        assert(lv.take(i + 1).last() == ls@[i as int]@);
        let f = split_of(&ls[i], '\t');
        if f.len() != 5 {
            proof {
                lemma_decode_error_stays(views(ls@), i + 1);
            }
            return Err("Invalid saved rule".to_owned());
        }
        let ghost fv = views(f@);
        assert(fv[0] == f@[0]@);
        let k = match parse_u16_of(&f[0]) {
            Ok(k) => k,
            Err(e) => {
                proof {
                    lemma_decode_error_stays(views(ls@), i + 1);
                }
                return Err(e.text());
            },
        };
        if !(8 <= k && k <= 255) || r.contains_key(&k) {
            proof {
                lemma_decode_error_stays(views(ls@), i + 1);
            }
            return Err("Invalid or duplicate keycode".to_owned());
        }
        let rule = match decode_fields_of(&f) {
            Ok(rule) => rule,
            Err(e) => {
                proof {
                    lemma_decode_error_stays(views(ls@), i + 1);
                }
                return Err(e);
            },
        };
        let ghost before = r@;
        let ghost rv = rule@;
        r.insert(k, rule);
        assert(rules_view(r@) =~= rules_view(before).insert(k, rv));
    }
    assert(views(ls@).take(ls@.len() as int) == views(ls@));
    Ok(r)
}

/// Writes the rules file for the rules.
pub fn encode(rules: &Rules) -> (text: String)
    ensures
        text@ == encode_rules(rules_view(rules@)),
{
    let ks = keys_in_order(rules);
    let ghost m = rules_view(rules@);
    let ghost lines_all = sorted_keys(m.dom()).map_values(|k: u16| rule_line(k, m[k]));
    assert(m.dom() == rules@.dom());
    let mut out: Vec<char> = Vec::new();
    for i in 0..ks.len()
        invariant
            ks@ == sorted_keys(m.dom()),
            m == rules_view(rules@),
            lines_all == sorted_keys(m.dom()).map_values(|k: u16| rule_line(k, m[k])),
            out@ == line_block(lines_all.take(i as int)),
    {
        let k = ks[i];
        proof {
            crate::order::lemma_keys_from(m.dom(), 0);
            assert(ks@.contains(k));
        }
        let rule = rules.get(&k).unwrap();
        let mut line = decimal_of(k as u64);
        line.push('\t');
        line.append(&mut hex_chars(rule.original.as_str()));
        line.push('\t');
        line.append(&mut hex_chars(rule.mapped.as_str()));
        line.push('\t');
        line.append(&mut hex_chars(rule.command.as_str()));
        line.push('\t');
        line.append(&mut hex_chars(rule.shortcut.as_str()));
        proof {
            let f = rule_fields(k, m[k]);
            reveal_with_fuel(join, 5);
            assert(f.drop_last().drop_last().drop_last().drop_last() =~= seq![f[0]]);
            assert(f.drop_last().drop_last().drop_last() =~= seq![f[0], f[1]]);
            assert(f.drop_last().drop_last() =~= seq![f[0], f[1], f[2]]);
            assert(f.drop_last() =~= seq![f[0], f[1], f[2], f[3]]);
            assert(line@ =~= rule_line(k, m[k]));
            assert(lines_all.take(i + 1).drop_last() == lines_all.take(i as int));
            assert(lines_all.take(i + 1).last() == rule_line(k, m[k]));
        }
        out.append(&mut line);
        out.push('\n');
    }
    assert(lines_all.take(ks@.len() as int) == lines_all);
    string_of(&out)
}


/// Lines without line breaks, none ending in `\r`, each ended by `\n`,
/// are read back as themselves.
pub proof fn lemma_lines_block(ls: Seq<Seq<char>>)
    requires
        forall|i: int| 0 <= i < ls.len() ==> !(#[trigger] ls[i]).contains('\n'),
        forall|i: int| 0 <= i < ls.len() ==> !(#[trigger] ls[i]).contains('\r'),
    ensures
        split_scan(line_block(ls), '\n') == (ls, Seq::<char>::empty()),
        lines(line_block(ls)) == ls,
    decreases ls.len(),
{
    if ls.len() > 0 {
        let init = ls.drop_last();
        assert forall|i: int| 0 <= i < init.len() implies !(#[trigger] init[i]).contains('\n')
            && !init[i].contains('\r') by {
            assert(init[i] == ls[i]);
        }
        lemma_lines_block(init);
        let b = line_block(init);
        let l = ls.last();
        assert(!l.contains('\n')) by {
            assert(l == ls[ls.len() - 1]);
        }
        lemma_split_scan_extend(b, l, '\n');
        lemma_split_scan_sep(b + l, '\n');
        assert(Seq::<char>::empty() + l == l);
        assert(init.push(l) == ls);
    }
    let ended = ls.map_values(|l: Seq<char>| strip_cr(l));
    assert forall|i: int| 0 <= i < ls.len() implies #[trigger] ended[i] == ls[i] by {
        if ls[i].len() > 0 {
            assert(ls[i].contains(ls[i].last()));
        }
    }
    assert(ended =~= ls);
}

/// The fields of a rule's line hold neither tabs nor line breaks.
proof fn lemma_rule_fields_plain(k: u16, r: RuleView)
    ensures
        forall|i: int|
            0 <= i < 5 ==> !(#[trigger] rule_fields(k, r)[i]).contains('\t') && !rule_fields(
                k,
                r,
            )[i].contains('\n') && !rule_fields(k, r)[i].contains('\r'),
{
    let f = rule_fields(k, r);
    lemma_decimal_chars(k as nat);
    lemma_hex_bytes(vstd::utf8::encode_utf8(r.original));
    lemma_hex_bytes(vstd::utf8::encode_utf8(r.mapped));
    lemma_hex_bytes(vstd::utf8::encode_utf8(r.command));
    lemma_hex_bytes(vstd::utf8::encode_utf8(r.shortcut));
    assert forall|i: int, c: char|
        0 <= i < 5 && (c == '\t' || c == '\n' || c == '\r') implies !(#[trigger] f[i].contains(c)) by {
        if f[i].contains(c) {
            let j = choose|j: int| 0 <= j < f[i].len() && f[i][j] == c;
            if i == 0 {
                assert(is_digit(f[0][j]));
            } else {
                assert(hex_value(f[i][j]) is Some);
            }
        }
    }
}

/// Reading the first `i` lines of the rules file gives the rules of the
/// first `i` keys.
proof fn lemma_decode_prefix(m: Map<u16, RuleView>, i: int)
    requires
        forall|k: u16| #[trigger] m.contains_key(k) ==> 8 <= k <= 255,
        0 <= i <= sorted_keys(m.dom()).len(),
    ensures
        decode_lines(
            sorted_keys(m.dom()).map_values(|k: u16| rule_line(k, m[k])).take(i),
        ) == Ok::<Map<u16, RuleView>, Seq<char>>(
            m.restrict(sorted_keys(m.dom()).take(i).to_set()),
        ),
    decreases i,
{
    let ks = sorted_keys(m.dom());
    let ls = ks.map_values(|k: u16| rule_line(k, m[k]));
    lemma_keys_from(m.dom(), 0);
    if i == 0 {
        assert(ls.take(0) =~= seq![]);
        assert(m.restrict(ks.take(0).to_set()) =~= Map::empty());
    } else {
        lemma_decode_prefix(m, i - 1);
        assert(ls.take(i).drop_last() == ls.take(i - 1));
        let k = ks[i - 1];
        assert(ks.contains(k));
        let r = m[k];
        let line = rule_line(k, r);
        assert(ls.take(i).last() == line);
        let f = rule_fields(k, r);
        lemma_rule_fields_plain(k, r);
        assert forall|j: int| 0 <= j < f.len() implies !(#[trigger] f[j]).contains('\t') by {
        }
        lemma_split_join(f, '\t');
        lemma_parse_decimal(k);
        law_unhex_hex(r.original);
        law_unhex_hex(r.mapped);
        law_unhex_hex(r.command);
        law_unhex_hex(r.shortcut);
        let n = i - 1;
        let mi = m.restrict(ks.take(n).to_set());
        assert(!mi.contains_key(k)) by {
            if ks.take(n).to_set().contains(k) {
                assert(ks.take(n).contains(k));
                let j = choose|j: int| 0 <= j < n && ks.take(n)[j] == k;
                assert(ks[j] < ks[n]);
            }
        }
        assert(decode_fields(f) == Ok::<RuleView, Seq<char>>(r));
        assert(mi.insert(k, r) =~= m.restrict(ks.take(i).to_set())) by {
            assert forall|x: u16| ks.take(i).to_set().contains(x) <==> (ks.take(n).to_set().contains(x) || x == k) by {
                if ks.take(i).contains(x) {
                    let j = choose|j: int| 0 <= j < i && ks.take(i)[j] == x;
                    if j < n {
                        assert(ks.take(n)[j] == x);
                    }
                }
                if ks.take(n).contains(x) {
                    let j = choose|j: int| 0 <= j < n && ks.take(n)[j] == x;
                    assert(ks.take(i)[j] == x);
                }
                if x == k {
                    assert(ks.take(i)[n] == x);
                }
            }
        }
    }
}

/// Reading back the rules file written for rules with keycodes in 8..=255
/// gives back the same rules.
pub proof fn law_decode_encode(m: Map<u16, RuleView>)
    requires
        forall|k: u16| #[trigger] m.contains_key(k) ==> 8 <= k <= 255,
    ensures
        decode_text(encode_rules(m)) == Ok::<Map<u16, RuleView>, Seq<char>>(m),
{
    let ks = sorted_keys(m.dom());
    let ls = ks.map_values(|k: u16| rule_line(k, m[k]));
    lemma_keys_from(m.dom(), 0);
    assert forall|i: int| 0 <= i < ls.len() implies !(#[trigger] ls[i]).contains('\n') && !ls[i].contains('\r') by {
        let k = ks[i];
        lemma_rule_fields_plain(k, m[k]);
        lemma_join_free(rule_fields(k, m[k]), '\t', '\n');
        lemma_join_free(rule_fields(k, m[k]), '\t', '\r');
    }
    lemma_lines_block(ls);
    lemma_decode_prefix(m, ks.len() as int);
    assert(ls.take(ls.len() as int) == ls);
    assert(ks.take(ks.len() as int) == ks);
    assert(m.restrict(ks.to_set()) =~= m);
}

} // verus!
