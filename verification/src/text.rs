//! Character-level text handling: whitespace words, field splitting, lines,
//! decimal numerals.

use vstd::prelude::*;
use vstd::string::*;

verus! {

/// Whether `c` has the Unicode `White_Space` property, the set that
/// `char::is_whitespace` recognises.
pub open spec fn is_space(c: char) -> bool {
    ||| ('\u{9}' <= c && c <= '\u{d}')
    ||| c == ' '
    ||| c == '\u{85}'
    ||| c == '\u{a0}'
    ||| c == '\u{1680}'
    ||| ('\u{2000}' <= c && c <= '\u{200a}')
    ||| c == '\u{2028}'
    ||| c == '\u{2029}'
    ||| c == '\u{202f}'
    ||| c == '\u{205f}'
    ||| c == '\u{3000}'
}

/// Scanning `s` from the left: the whitespace-separated words completed so
/// far, and the word still being read.
pub open spec fn word_scan(s: Seq<char>) -> (Seq<Seq<char>>, Seq<char>)
    decreases s.len(),
{
    if s.len() == 0 {
        (seq![], seq![])
    } else {
        let (done, cur) = word_scan(s.drop_last());
        let c = s.last();
        if is_space(c) {
            if cur.len() == 0 {
                (done, cur)
            } else {
                (done.push(cur), seq![])
            }
        } else {
            (done, cur.push(c))
        }
    }
}

/// The maximal runs of non-whitespace characters of `s`, left to right
/// (what `str::split_whitespace` yields).
pub open spec fn words(s: Seq<char>) -> Seq<Seq<char>> {
    let (done, cur) = word_scan(s);
    if cur.len() == 0 {
        done
    } else {
        done.push(cur)
    }
}

/// Scanning `s` from the left: the pieces ended by `sep` so far, and the
/// piece still being read.
pub open spec fn split_scan(s: Seq<char>, sep: char) -> (Seq<Seq<char>>, Seq<char>)
    decreases s.len(),
{
    if s.len() == 0 {
        (seq![], seq![])
    } else {
        let (done, cur) = split_scan(s.drop_last(), sep);
        if s.last() == sep {
            (done.push(cur), seq![])
        } else {
            (done, cur.push(s.last()))
        }
    }
}

/// The pieces of `s` between occurrences of `sep` (what `str::split` with a
/// character yields): always one more piece than there are separators.
pub open spec fn split(s: Seq<char>, sep: char) -> Seq<Seq<char>> {
    let (done, cur) = split_scan(s, sep);
    done.push(cur)
}

/// A line ended by `\n` loses a `\r` just before that `\n`.
pub open spec fn strip_cr(l: Seq<char>) -> Seq<char> {
    if l.len() > 0 && l.last() == '\r' {
        l.drop_last()
    } else {
        l
    }
}

/// The lines of `s` (what `str::lines` yields): pieces ended by `\n`, with a
/// `\r\n` ending counted as one; a last piece without `\n` counts only when
/// it is not empty, and keeps any `\r` at its end.
pub open spec fn lines(s: Seq<char>) -> Seq<Seq<char>> {
    let (done, cur) = split_scan(s, '\n');
    let ended = done.map_values(|l: Seq<char>| strip_cr(l));
    if cur.len() == 0 {
        ended
    } else {
        ended.push(cur)
    }
}

/// The words joined with single `sep` characters between them.
pub open spec fn join(ws: Seq<Seq<char>>, sep: char) -> Seq<char>
    decreases ws.len(),
{
    if ws.len() == 0 {
        seq![]
    } else if ws.len() == 1 {
        ws[0]
    } else {
        join(ws.drop_last(), sep) + seq![sep] + ws.last()
    }
}

/// The views of a sequence of character vectors.
pub open spec fn views(v: Seq<Vec<char>>) -> Seq<Seq<char>> {
    v.map_values(|w: Vec<char>| w@)
}

/// Whether `s` begins with `p`.
pub open spec fn starts_with(s: Seq<char>, p: Seq<char>) -> bool {
    p.len() <= s.len() && s.take(p.len() as int) == p
}

/// Whether `s` ends with `p`.
pub open spec fn ends_with(s: Seq<char>, p: Seq<char>) -> bool {
    p.len() <= s.len() && s.skip(s.len() - p.len()) == p
}

/// Whether `p` stands somewhere in `s`.
pub open spec fn has_part(s: Seq<char>, p: Seq<char>) -> bool {
    exists|i: int| 0 <= i && i + p.len() <= s.len() && #[trigger] s.subrange(i, i + p.len()) == p
}

/// The position of the first `c` in `s`.
pub open spec fn first_at(s: Seq<char>, c: char) -> Option<int>
    decreases s.len(),
{
    if s.len() == 0 {
        None
    } else if s[0] == c {
        Some(0)
    } else {
        match first_at(s.drop_first(), c) {
            Some(i) => Some(i + 1),
            None => None,
        }
    }
}

/// The characters of `s` from `from` up to `to`.
pub fn sub_chars(s: &[char], from: usize, to: usize) -> (out: Vec<char>)
    requires
        from <= to <= s@.len(),
    ensures
        out@ == s@.subrange(from as int, to as int),
{
    let mut out: Vec<char> = Vec::new();
    for i in from..to
        invariant
            from <= to <= s@.len(),
            out@ == s@.subrange(from as int, i as int),
    {
        out.push(s[i]);
        assert(s@.subrange(from as int, i + 1) == s@.subrange(from as int, i as int).push(s@[i as int]));
    }
    out
}

/// `s` without its leading whitespace.
pub open spec fn trim_front(s: Seq<char>) -> Seq<char>
    decreases s.len(),
{
    if s.len() > 0 && is_space(s[0]) {
        trim_front(s.drop_first())
    } else {
        s
    }
}

/// `s` without its trailing whitespace.
pub open spec fn trim_back(s: Seq<char>) -> Seq<char>
    decreases s.len(),
{
    if s.len() > 0 && is_space(s.last()) {
        trim_back(s.drop_last())
    } else {
        s
    }
}

/// `s` without leading and trailing whitespace (what `str::trim` gives).
pub open spec fn trim(s: Seq<char>) -> Seq<char> {
    trim_back(trim_front(s))
}

/// `s` without leading and trailing whitespace.
pub fn trim_of(s: &[char]) -> (out: Vec<char>)
    ensures
        out@ == trim(s@),
{
    let mut a: usize = 0;
    assert(s@.skip(0) == s@);
    while a < s.len() && space(s[a])
        invariant
            a <= s@.len(),
            trim_front(s@) == trim_front(s@.skip(a as int)),
        decreases s.len() - a,
    {
        assert(s@.skip(a as int).drop_first() == s@.skip(a + 1));
        a = a + 1;
    }
    let mut b: usize = s.len();
    let ghost front = s@.skip(a as int);
    assert(trim_front(front) == front);
    while b > a && space(s[b - 1])
        invariant
            a <= b <= s@.len(),
            front == s@.skip(a as int),
            trim_back(front) == trim_back(s@.subrange(a as int, b as int)),
        decreases b,
    {
        assert(s@.subrange(a as int, b as int).drop_last() == s@.subrange(a as int, b - 1));
        b = b - 1;
    }
    assert(s@.skip(a as int) == s@.subrange(a as int, s@.len() as int));
    sub_chars(s, a, b)
}

/// Whether two character sequences are equal.
pub fn same_chars(a: &[char], b: &[char]) -> (r: bool)
    ensures
        r == (a@ == b@),
{
    if a.len() != b.len() {
        return false;
    }
    for i in 0..a.len()
        invariant
            a@.len() == b@.len(),
            forall|j: int| 0 <= j < i ==> a@[j] == b@[j],
    {
        if a[i] != b[i] {
            return false;
        }
    }
    assert(a@ =~= b@);
    true
}

/// Whether `s` begins with `p`.
pub fn starts_with_of(s: &[char], p: &[char]) -> (r: bool)
    ensures
        r == starts_with(s@, p@),
{
    if p.len() > s.len() {
        return false;
    }
    for i in 0..p.len()
        invariant
            p@.len() <= s@.len(),
            forall|j: int| 0 <= j < i ==> s@[j] == p@[j],
    {
        if s[i] != p[i] {
            assert(s@.take(p@.len() as int)[i as int] != p@[i as int]);
            return false;
        }
    }
    assert(s@.take(p@.len() as int) =~= p@);
    true
}

/// Whether `s` ends with `p`.
pub fn ends_with_of(s: &[char], p: &[char]) -> (r: bool)
    ensures
        r == ends_with(s@, p@),
{
    if p.len() > s.len() {
        return false;
    }
    let off = s.len() - p.len();
    for i in 0..p.len()
        invariant
            p@.len() <= s@.len(),
            off == s@.len() - p@.len(),
            off + p.len() == s.len(),
            forall|j: int| 0 <= j < i ==> s@[off + j] == p@[j],
    {
        if s[off + i] != p[i] {
            assert(s@.skip(off as int)[i as int] != p@[i as int]);
            return false;
        }
    }
    assert(s@.skip(off as int) =~= p@);
    true
}

/// Whether `p` stands somewhere in `s`.
pub fn has_part_of(s: &[char], p: &[char]) -> (r: bool)
    ensures
        r == has_part(s@, p@),
{
    if p.len() > s.len() {
        assert forall|i: int| 0 <= i && i + p@.len() <= s@.len() implies #[trigger] s@.subrange(
            i,
            i + p@.len(),
        ) != p@ by {
        }
        return false;
    }
    let last = s.len() - p.len();
    let mut i: usize = 0;
    loop
        invariant
            last == s@.len() - p@.len(),
            last + p.len() == s.len(),
            i <= last,
            forall|k: int| 0 <= k < i ==> #[trigger] s@.subrange(k, k + p@.len()) != p@,
        decreases last - i,
    {
        let mut j: usize = 0;
        let mut ok = true;
        while j < p.len()
            invariant
                last == s@.len() - p@.len(),
                last + p.len() == s.len(),
                i <= last,
                j <= p@.len(),
                ok ==> forall|m: int| 0 <= m < j ==> s@[i + m] == p@[m],
                !ok ==> s@.subrange(i as int, i + p@.len()) != p@,
            decreases p.len() - j,
        {
            if s[i + j] != p[j] {
                assert(s@.subrange(i as int, i + p@.len())[j as int] != p@[j as int]);
                ok = false;
            }
            j = j + 1;
        }
        if ok {
            assert(s@.subrange(i as int, i + p@.len()) =~= p@);
            return true;
        }
        if i == last {
            assert forall|k: int| 0 <= k && k + p@.len() <= s@.len() implies #[trigger] s@.subrange(
                k,
                k + p@.len(),
            ) != p@ by {
                assert(k <= i);
            }
            return false;
        }
        i = i + 1;
    }
}

/// The position of the first `c` in `s`.
pub fn first_at_of(s: &[char], c: char) -> (r: Option<usize>)
    ensures
        r matches Some(i) ==> first_at(s@, c) == Some(i as int),
        r is None ==> first_at(s@, c) is None,
{
    assert(s@.skip(0) == s@);
    for i in 0..s.len()
        invariant
            forall|j: int| 0 <= j < i ==> s@[j] != c,
            first_at(s@, c) == match first_at(s@.skip(i as int), c) {
                Some(k) => Some(k + i),
                None => None,
            },
    {
        assert(s@.skip(i as int).drop_first() == s@.skip(i + 1));
        assert(s@.skip(i as int)[0] == s@[i as int]);
        if s[i] == c {
            return Some(i);
        }
    }
    assert(s@.skip(s@.len() as int).len() == 0);
    None
}

/// The characters of a string slice, in order.
pub fn chars_of(s: &str) -> (out: Vec<char>)
    ensures
        out@ == s@,
{
    let mut out: Vec<char> = Vec::new();
    for c in it: s.chars()
        invariant
            out@ == it.seq().take(it.index() as int),
            it.seq() == s@,
    {
        out.push(c);
    }
    out
}

/// `String::push`: appends one character to the string.
#[verifier::external_body]
fn push_char(s: &mut String, c: char)
    ensures
        final(s)@ == old(s)@.push(c),
{
    s.push(c)
}

/// A string holding exactly the given characters.
pub fn string_of(cs: &[char]) -> (s: String)
    ensures
        s@ == cs@,
{
    let mut s = String::new();
    for i in 0..cs.len()
        invariant
            s@ == cs@.take(i as int),
    {
        push_char(&mut s, cs[i]);
        assert(cs@.take(i + 1) == cs@.take(i as int).push(cs@[i as int]));
    }
    assert(cs@.take(cs@.len() as int) == cs@);
    s
}

/// Whether `c` is whitespace.
pub fn space(c: char) -> (b: bool)
    ensures
        b == is_space(c),
{
    ('\u{9}' <= c && c <= '\u{d}') || c == ' ' || c == '\u{85}' || c == '\u{a0}' || c
        == '\u{1680}' || ('\u{2000}' <= c && c <= '\u{200a}') || c == '\u{2028}' || c
        == '\u{2029}' || c == '\u{202f}' || c == '\u{205f}' || c == '\u{3000}'
}

/// The whitespace-separated words of `s`.
pub fn words_of(s: &[char]) -> (out: Vec<Vec<char>>)
    ensures
        views(out@) == words(s@),
{
    let mut done: Vec<Vec<char>> = Vec::new();
    let mut cur: Vec<char> = Vec::new();
    for i in 0..s.len()
        invariant
            (views(done@), cur@) == word_scan(s@.take(i as int)),
    {
        assert(s@.take(i + 1).drop_last() == s@.take(i as int));
        let c = s[i];
        if space(c) {
            if cur.len() > 0 {
                let w = cur;
                cur = Vec::new();
                done.push(w);
                assert(views(done@) == word_scan(s@.take(i as int)).0.push(w@));
            }
        } else {
            cur.push(c);
        }
    }
    assert(s@.take(s@.len() as int) == s@);
    if cur.len() > 0 {
        done.push(cur);
        assert(views(done@) == word_scan(s@).0.push(word_scan(s@).1));
    }
    done
}

/// The pieces of `s` between occurrences of `sep`.
pub fn split_of(s: &[char], sep: char) -> (out: Vec<Vec<char>>)
    ensures
        views(out@) == split(s@, sep),
{
    let mut done: Vec<Vec<char>> = Vec::new();
    let mut cur: Vec<char> = Vec::new();
    for i in 0..s.len()
        invariant
            (views(done@), cur@) == split_scan(s@.take(i as int), sep),
    {
        assert(s@.take(i + 1).drop_last() == s@.take(i as int));
        let c = s[i];
        if c == sep {
            let w = cur;
            cur = Vec::new();
            done.push(w);
            assert(views(done@) == split_scan(s@.take(i as int), sep).0.push(w@));
        } else {
            cur.push(c);
        }
    }
    assert(s@.take(s@.len() as int) == s@);
    let ghost before = views(done@);
    done.push(cur);
    assert(views(done@) == before.push(split_scan(s@, sep).1));
    done
}

/// The lines of `s`.
pub fn lines_of(s: &[char]) -> (out: Vec<Vec<char>>)
    ensures
        views(out@) == lines(s@),
{
    let mut done: Vec<Vec<char>> = Vec::new();
    let mut cur: Vec<char> = Vec::new();
    for i in 0..s.len()
        invariant
            views(done@) == split_scan(s@.take(i as int), '\n').0.map_values(
                |l: Seq<char>| strip_cr(l),
            ),
            cur@ == split_scan(s@.take(i as int), '\n').1,
    {
        assert(s@.take(i + 1).drop_last() == s@.take(i as int));
        let c = s[i];
        if c == '\n' {
            let mut w = cur;
            if w.len() > 0 && w[w.len() - 1] == '\r' {
                w.pop();
            }
            cur = Vec::new();
            let ghost before = views(done@);
            done.push(w);
            assert(views(done@) == before.push(w@));
            assert(split_scan(s@.take(i + 1), '\n').0 == split_scan(s@.take(i as int), '\n').0.push(
                split_scan(s@.take(i as int), '\n').1,
            ));
        } else {
            cur.push(c);
        }
    }
    assert(s@.take(s@.len() as int) == s@);
    if cur.len() > 0 {
        let ghost before = views(done@);
        done.push(cur);
        assert(views(done@) == before.push(split_scan(s@, '\n').1));
    }
    done
}

/// The words joined with single `sep` characters between them.
pub fn join_of(ws: &Vec<Vec<char>>, sep: char) -> (out: Vec<char>)
    ensures
        out@ == join(views(ws@), sep),
{
    let mut out: Vec<char> = Vec::new();
    for i in 0..ws.len()
        invariant
            out@ == join(views(ws@).take(i as int), sep),
    {
        let ghost vs = views(ws@);
        assert(vs.take(i + 1).drop_last() == vs.take(i as int));
        if i > 0 {
            out.push(sep);
        }
        let w = &ws[i];
        for j in 0..w.len()
            invariant
                out@ == join(vs.take(i as int), sep) + (if i > 0 {
                    seq![sep]
                } else {
                    seq![]
                }) + w@.take(j as int),
        {
            out.push(w[j]);
            assert(w@.take(j + 1) == w@.take(j as int).push(w@[j as int]));
        }
        assert(w@.take(w@.len() as int) == w@);
        if i == 0 {
            assert(vs.take(1) == seq![w@]);
        }
    }
    assert(views(ws@).take(ws@.len() as int) == views(ws@));
    out
}


/// The decimal digits, indexed by value.
pub open spec fn digit_char(d: int) -> char {
    seq!['0', '1', '2', '3', '4', '5', '6', '7', '8', '9'][d]
}

/// Whether `c` is an ASCII decimal digit.
pub open spec fn is_digit(c: char) -> bool {
    '0' <= c && c <= '9'
}

/// The value of an ASCII decimal digit.
pub open spec fn digit_value(c: char) -> int {
    c as int - '0' as int
}

/// The decimal numeral of `n`, without leading zeros.
pub open spec fn decimal(n: nat) -> Seq<char>
    decreases n,
{
    if n < 10 {
        seq![digit_char(n as int)]
    } else {
        decimal(n / 10).push(digit_char((n % 10) as int))
    }
}

/// Why a numeral is not a `u16`.
#[derive(Clone, Copy, Debug, PartialEq, Eq, Structural)]
pub enum IntError {
    /// Nothing to parse.
    Empty,
    /// A character that is not a digit, or a sign alone.
    InvalidDigit,
    /// The number is above `u16::MAX`.
    Overflow,
}

/// Reading the digits `ds` after the value `acc` read so far, left to right:
/// the first character that is not a digit, or the first digit that takes
/// the value above `u16::MAX`, decides the error.
pub open spec fn digits_value(ds: Seq<char>, acc: int) -> Result<int, IntError>
    decreases ds.len(),
{
    if ds.len() == 0 {
        Ok(acc)
    } else if !is_digit(ds[0]) {
        Err(IntError::InvalidDigit)
    } else {
        let v = acc * 10 + digit_value(ds[0]);
        if v > 65535 {
            Err(IntError::Overflow)
        } else {
            digits_value(ds.drop_first(), v)
        }
    }
}

/// A `u16` read from its decimal numeral, as `str::parse::<u16>` reads it:
/// an optional `+` sign, then at least one digit.
pub open spec fn parse_u16(s: Seq<char>) -> Result<u16, IntError> {
    if s.len() == 0 {
        Err(IntError::Empty)
    } else if s == seq!['+'] || s == seq!['-'] {
        Err(IntError::InvalidDigit)
    } else {
        let ds = if s[0] == '+' {
            s.drop_first()
        } else {
            s
        };
        match digits_value(ds, 0) {
            Ok(v) => Ok(v as u16),
            Err(e) => Err(e),
        }
    }
}

/// The message that goes with each error.
pub open spec fn int_error_text(e: IntError) -> Seq<char> {
    match e {
        IntError::Empty => "cannot parse integer from empty string"@,
        IntError::InvalidDigit => "invalid digit found in string"@,
        IntError::Overflow => "number too large to fit in target type"@,
    }
}

impl IntError {
    /// The message of this error.
    pub fn text(&self) -> (m: String)
        ensures
            m@ == int_error_text(*self),
    {
        match self {
            IntError::Empty => "cannot parse integer from empty string".to_owned(),
            IntError::InvalidDigit => "invalid digit found in string".to_owned(),
            IntError::Overflow => "number too large to fit in target type".to_owned(),
        }
    }
}

/// The decimal digit character of `d`.
fn digit_of(d: u64) -> (c: char)
    requires
        d < 10,
    ensures
        c == digit_char(d as int),
{
    let table = ['0', '1', '2', '3', '4', '5', '6', '7', '8', '9'];
    assert(table@ == seq!['0', '1', '2', '3', '4', '5', '6', '7', '8', '9']);
    table[d as usize]
}

/// The decimal numeral of `n`.
pub fn decimal_of(n: u64) -> (out: Vec<char>)
    ensures
        out@ == decimal(n as nat),
    decreases n,
{
    if n < 10 {
        let mut v = Vec::new();
        v.push(digit_of(n));
        assert(v@ == seq![digit_char(n as int)]);
        v
    } else {
        let mut v = decimal_of(n / 10);
        v.push(digit_of(n % 10));
        v
    }
}

/// Reads a `u16` from its decimal numeral.
pub fn parse_u16_of(s: &[char]) -> (r: Result<u16, IntError>)
    ensures
        r == parse_u16(s@),
{
    if s.len() == 0 {
        return Err(IntError::Empty);
    }
    if s.len() == 1 && (s[0] == '+' || s[0] == '-') {
        assert(s@ == seq![s@[0]]);
        return Err(IntError::InvalidDigit);
    }
    assert(!(s@ == seq!['+'] || s@ == seq!['-']) ) by {
        if s@ == seq!['+'] || s@ == seq!['-'] {
            assert(s@.len() == 1);
        }
    }
    let start: usize = if s[0] == '+' { 1 } else { 0 };
    let ghost ds = if s@[0] == '+' { s@.drop_first() } else { s@ };
    assert(ds == s@.skip(start as int));
    assert(parse_u16(s@) == match digits_value(ds, 0) {
        Ok(v) => Ok(v as u16),
        Err(e) => Err(e),
    });
    let mut acc: u32 = 0;
    let mut i: usize = start;
    while i < s.len()
        invariant
            start <= i <= s.len(),
            acc <= 65535,
            ds == s@.skip(start as int),
            parse_u16(s@) == match digits_value(s@.skip(i as int), acc as int) {
                Ok(v) => Ok(v as u16),
                Err(e) => Err(e),
            },
        decreases s.len() - i,
    {
        let c = s[i];
        assert(s@.skip(i as int).len() > 0);
        assert(s@.skip(i as int)[0] == c);
        if !('0' <= c && c <= '9') {
            return Err(IntError::InvalidDigit);
        }
        let v = acc * 10 + (c as u32 - '0' as u32);
        if v > 65535 {
            return Err(IntError::Overflow);
        }
        assert(s@.skip(i as int).drop_first() == s@.skip(i + 1));
        acc = v;
        i = i + 1;
    }
    assert(s@.skip(i as int).len() == 0);
    Ok(acc as u16)
}

/// Reading the digits of `s` and then those of `t` is reading the digits of
/// `s + t`.
pub proof fn lemma_digits_value_concat(s: Seq<char>, t: Seq<char>, acc: int)
    requires
        0 <= acc,
    ensures
        digits_value(s + t, acc) == match digits_value(s, acc) {
            Ok(v) => digits_value(t, v),
            Err(e) => Err(e),
        },
    decreases s.len(),
{
    if s.len() > 0 {
        assert((s + t)[0] == s[0]);
        assert((s + t).drop_first() == s.drop_first() + t);
        if is_digit(s[0]) {
            lemma_digits_value_concat(s.drop_first(), t, acc * 10 + digit_value(s[0]));
        }
    } else {
        assert(s + t == t);
    }
}

/// The decimal numeral of `n` is read back as `n`.
pub proof fn lemma_decimal_digits(n: nat)
    requires
        n <= 65535,
    ensures
        digits_value(decimal(n), 0) == Ok::<int, IntError>(n as int),
        decimal(n).len() > 0,
        is_digit(decimal(n)[0]),
    decreases n,
{
    if n < 10 {
        reveal_with_fuel(digits_value, 2);
        assert(seq!['0', '1', '2', '3', '4', '5', '6', '7', '8', '9'][n as int] as int == '0' as int
            + n) by {
            assert(seq!['0', '1', '2', '3', '4', '5', '6', '7', '8', '9'][0] == '0');
            assert(seq!['0', '1', '2', '3', '4', '5', '6', '7', '8', '9'][1] == '1');
            assert(seq!['0', '1', '2', '3', '4', '5', '6', '7', '8', '9'][2] == '2');
            assert(seq!['0', '1', '2', '3', '4', '5', '6', '7', '8', '9'][3] == '3');
            assert(seq!['0', '1', '2', '3', '4', '5', '6', '7', '8', '9'][4] == '4');
            assert(seq!['0', '1', '2', '3', '4', '5', '6', '7', '8', '9'][5] == '5');
            assert(seq!['0', '1', '2', '3', '4', '5', '6', '7', '8', '9'][6] == '6');
            assert(seq!['0', '1', '2', '3', '4', '5', '6', '7', '8', '9'][7] == '7');
            assert(seq!['0', '1', '2', '3', '4', '5', '6', '7', '8', '9'][8] == '8');
            assert(seq!['0', '1', '2', '3', '4', '5', '6', '7', '8', '9'][9] == '9');
        }
        assert(decimal(n).drop_first().len() == 0);
    } else {
        lemma_decimal_digits(n / 10);
        let d = (n % 10) as int;
        lemma_digit_char(d);
        lemma_digits_value_concat(decimal(n / 10), seq![digit_char(d)], 0);
        reveal_with_fuel(digits_value, 2);
        assert(seq![digit_char(d)].drop_first().len() == 0);
        assert(decimal(n) == decimal(n / 10) + seq![digit_char(d)]);
    }
}

/// A digit character has the value it stands for.
pub proof fn lemma_digit_char(d: int)
    requires
        0 <= d < 10,
    ensures
        is_digit(digit_char(d)),
        digit_value(digit_char(d)) == d,
{
    let t = seq!['0', '1', '2', '3', '4', '5', '6', '7', '8', '9'];
    assert(t[0] == '0' && t[1] == '1' && t[2] == '2' && t[3] == '3' && t[4] == '4');
    assert(t[5] == '5' && t[6] == '6' && t[7] == '7' && t[8] == '8' && t[9] == '9');
}

/// A `u16` is read back from its decimal numeral.
pub proof fn lemma_parse_decimal(n: u16)
    ensures
        parse_u16(decimal(n as nat)) == Ok::<u16, IntError>(n),
{
    lemma_decimal_digits(n as nat);
    let s = decimal(n as nat);
    if s == seq!['+'] || s == seq!['-'] {
        assert(s[0] == '+' || s[0] == '-');
    }
}


/// Scanning on past a stretch without separators only lengthens the piece
/// being read.
pub proof fn lemma_split_scan_extend(x: Seq<char>, y: Seq<char>, sep: char)
    requires
        !y.contains(sep),
    ensures
        split_scan(x + y, sep) == (split_scan(x, sep).0, split_scan(x, sep).1 + y),
    decreases y.len(),
{
    if y.len() == 0 {
        assert(x + y == x);
        assert(split_scan(x, sep).1 + y == split_scan(x, sep).1);
    } else {
        let y0 = y.drop_last();
        assert(!y0.contains(sep)) by {
            if y0.contains(sep) {
                let i = choose|i: int| 0 <= i < y0.len() && y0[i] == sep;
                assert(y[i] == sep);
            }
        }
        assert(y.contains(y.last()));
        lemma_split_scan_extend(x, y0, sep);
        assert((x + y).drop_last() == x + y0);
        assert((x + y).last() == y.last());
        assert(split_scan(x, sep).1 + y0 + seq![y.last()] == split_scan(x, sep).1 + y);
    }
}

/// A separator closes the piece being read.
pub proof fn lemma_split_scan_sep(x: Seq<char>, sep: char)
    ensures
        split_scan(x + seq![sep], sep) == (split_scan(x, sep).0.push(split_scan(x, sep).1), Seq::<
            char,
        >::empty()),
{
    assert((x + seq![sep]).drop_last() == x);
}

/// Splitting pieces joined by a separator that none of them holds gives
/// back the pieces.
pub proof fn lemma_split_join(ws: Seq<Seq<char>>, sep: char)
    requires
        ws.len() >= 1,
        forall|i: int| 0 <= i < ws.len() ==> !(#[trigger] ws[i]).contains(sep),
    ensures
        split_scan(join(ws, sep), sep) == (ws.drop_last(), ws.last()),
        split(join(ws, sep), sep) == ws,
    decreases ws.len(),
{
    if ws.len() == 1 {
        lemma_split_scan_extend(seq![], ws[0], sep);
        assert(Seq::<char>::empty() + ws[0] == ws[0]);
        assert(split_scan(Seq::<char>::empty(), sep) == (Seq::<Seq<char>>::empty(), Seq::<char>::empty()));
        assert(ws.drop_last() == Seq::<Seq<char>>::empty());
        assert(seq![ws[0]] == ws);
    } else {
        let init = ws.drop_last();
        assert forall|i: int| 0 <= i < init.len() implies !(#[trigger] init[i]).contains(sep) by {
            assert(init[i] == ws[i]);
        }
        lemma_split_join(init, sep);
        let j = join(init, sep);
        lemma_split_scan_sep(j, sep);
        assert(init.drop_last().push(init.last()) == init);
        lemma_split_scan_extend(j + seq![sep], ws.last(), sep);
        assert(ws.last() == ws[ws.len() - 1]);
        assert(join(ws, sep) == (j + seq![sep]) + ws.last());
        assert(Seq::<char>::empty() + ws.last() == ws.last());
    }
    assert(ws.drop_last().push(ws.last()) == ws);
}

/// The digits of a decimal numeral are digits.
pub proof fn lemma_decimal_chars(n: nat)
    ensures
        forall|i: int| 0 <= i < decimal(n).len() ==> is_digit(#[trigger] decimal(n)[i]),
    decreases n,
{
    if n < 10 {
        lemma_digit_char(n as int);
    } else {
        lemma_decimal_chars(n / 10);
        lemma_digit_char((n % 10) as int);
        assert forall|i: int| 0 <= i < decimal(n).len() implies is_digit(#[trigger] decimal(n)[i]) by {
            if i < decimal(n / 10).len() {
                assert(decimal(n)[i] == decimal(n / 10)[i]);
            }
        }
    }
}


/// A character that neither the pieces nor the separator hold is not in
/// their join.
pub proof fn lemma_join_free(ws: Seq<Seq<char>>, sep: char, c: char)
    requires
        sep != c,
        forall|i: int| 0 <= i < ws.len() ==> !(#[trigger] ws[i]).contains(c),
    ensures
        !join(ws, sep).contains(c),
    decreases ws.len(),
{
    if ws.len() == 1 {
        assert(ws[0] == join(ws, sep));
    } else if ws.len() > 1 {
        let init = ws.drop_last();
        assert forall|i: int| 0 <= i < init.len() implies !(#[trigger] init[i]).contains(c) by {
            assert(init[i] == ws[i]);
        }
        lemma_join_free(init, sep, c);
        let j = join(ws, sep);
        let a = join(init, sep);
        let l = ws.last();
        assert(!l.contains(c)) by {
            assert(l == ws[ws.len() - 1]);
        }
        if j.contains(c) {
            let i = choose|i: int| 0 <= i < j.len() && j[i] == c;
            if i < a.len() {
                assert(a[i] == c);
            } else if i == a.len() {
                assert(j[i] == sep);
            } else {
                assert(l[i - a.len() - 1] == c);
            }
        }
    }
}


/// The first position of a character lies inside the text, and holds it.
pub proof fn lemma_first_at_bound(s: Seq<char>, c: char)
    ensures
        first_at(s, c) matches Some(i) ==> 0 <= i < s.len() && s[i] == c,
    decreases s.len(),
{
    if s.len() > 0 && s[0] != c {
        lemma_first_at_bound(s.drop_first(), c);
    }
}


/// A word: at least one character, none of them whitespace.
pub open spec fn is_word(w: Seq<char>) -> bool {
    w.len() > 0 && forall|i: int| 0 <= i < w.len() ==> !is_space(#[trigger] w[i])
}

/// Scanning yields words, and the word being read holds no whitespace.
proof fn lemma_word_scan_shape(s: Seq<char>)
    ensures
        forall|i: int| 0 <= i < word_scan(s).0.len() ==> is_word(#[trigger] word_scan(s).0[i]),
        forall|i: int| 0 <= i < word_scan(s).1.len() ==> !is_space(#[trigger] word_scan(s).1[i]),
    decreases s.len(),
{
    if s.len() > 0 {
        lemma_word_scan_shape(s.drop_last());
        let (done, cur) = word_scan(s.drop_last());
        let c = s.last();
        if is_space(c) {
            if cur.len() > 0 {
                let d2 = done.push(cur);
                assert forall|i: int| 0 <= i < d2.len() implies is_word(#[trigger] d2[i]) by {
                    if i < done.len() {
                        assert(d2[i] == done[i]);
                    }
                }
            }
        } else {
            let c2 = cur.push(c);
            assert forall|i: int| 0 <= i < c2.len() implies !is_space(#[trigger] c2[i]) by {
                if i < cur.len() {
                    assert(c2[i] == cur[i]);
                }
            }
        }
    }
}

/// The words of a text are words: non-empty, without whitespace.
pub proof fn lemma_words_are_words(s: Seq<char>)
    ensures
        forall|i: int| 0 <= i < words(s).len() ==> is_word(#[trigger] words(s)[i]),
{
    lemma_word_scan_shape(s);
    let (done, cur) = word_scan(s);
    if cur.len() > 0 {
        let w = done.push(cur);
        assert forall|i: int| 0 <= i < w.len() implies is_word(#[trigger] w[i]) by {
            if i < done.len() {
                assert(w[i] == done[i]);
            } else {
                assert(w[i] == cur);
            }
        }
    }
}

/// Scanning on past characters that are not whitespace lengthens the word
/// being read.
proof fn lemma_word_scan_extend(x: Seq<char>, y: Seq<char>)
    requires
        forall|i: int| 0 <= i < y.len() ==> !is_space(#[trigger] y[i]),
    ensures
        word_scan(x + y) == (word_scan(x).0, word_scan(x).1 + y),
    decreases y.len(),
{
    if y.len() == 0 {
        assert(x + y == x);
        assert(word_scan(x).1 + y == word_scan(x).1);
    } else {
        let y0 = y.drop_last();
        assert forall|i: int| 0 <= i < y0.len() implies !is_space(#[trigger] y0[i]) by {
            assert(y0[i] == y[i]);
        }
        lemma_word_scan_extend(x, y0);
        assert((x + y).drop_last() == x + y0);
        assert((x + y).last() == y[y.len() - 1]);
        assert(word_scan(x).1 + y0 + seq![y.last()] == word_scan(x).1 + y);
    }
}

/// Words joined by single spaces scan back into those words.
proof fn lemma_word_scan_join(ws: Seq<Seq<char>>)
    requires
        ws.len() >= 1,
        forall|i: int| 0 <= i < ws.len() ==> is_word(#[trigger] ws[i]),
    ensures
        word_scan(join(ws, ' ')) == (ws.drop_last(), ws.last()),
    decreases ws.len(),
{
    let l = ws.last();
    assert(is_word(ws[ws.len() - 1]));
    assert forall|i: int| 0 <= i < l.len() implies !is_space(#[trigger] l[i]) by {
        assert(l == ws[ws.len() - 1]);
    }
    if ws.len() == 1 {
        lemma_word_scan_extend(seq![], l);
        assert(Seq::<char>::empty() + l == l);
        assert(ws[0] == l);
        assert(word_scan(Seq::<char>::empty()) == (Seq::<Seq<char>>::empty(), Seq::<char>::empty()));
        assert(ws.drop_last() =~= Seq::<Seq<char>>::empty());
    } else {
        let init = ws.drop_last();
        assert forall|i: int| 0 <= i < init.len() implies is_word(#[trigger] init[i]) by {
            assert(init[i] == ws[i]);
        }
        lemma_word_scan_join(init);
        let j = join(init, ' ');
        assert(is_word(init[init.len() - 1]));
        assert((j + seq![' ']).drop_last() == j);
        assert(is_space(' '));
        assert(word_scan(j + seq![' ']) == (init.drop_last().push(init.last()), Seq::<char>::empty()));
        assert(init.drop_last().push(init.last()) == init);
        lemma_word_scan_extend(j + seq![' '], l);
        assert(Seq::<char>::empty() + l == l);
        assert(join(ws, ' ') == (j + seq![' ']) + l);
    }
}

/// Splitting words joined by single spaces gives back the words.
pub proof fn lemma_words_join(ws: Seq<Seq<char>>)
    requires
        forall|i: int| 0 <= i < ws.len() ==> is_word(#[trigger] ws[i]),
    ensures
        words(join(ws, ' ')) == ws,
{
    if ws.len() == 0 {
        assert(words(Seq::<char>::empty()) == Seq::<Seq<char>>::empty());
    } else {
        lemma_word_scan_join(ws);
        assert(is_word(ws[ws.len() - 1]));
        assert(ws.drop_last().push(ws.last()) == ws);
    }
}

} // verus!
