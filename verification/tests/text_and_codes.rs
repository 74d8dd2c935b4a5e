use lib::hexcode::{hex, unhex};
use lib::rules::{decode, encode, Rule};
use lib::text::{
    chars_of, decimal_of, join_of, lines_of, parse_u16_of, split_of, string_of, trim_of, words_of,
    IntError,
};
use std::collections::BTreeMap;

fn s(v: &[char]) -> String {
    v.iter().collect()
}

fn texts(v: &[Vec<char>]) -> Vec<String> {
    v.iter().map(|w| s(w)).collect()
}

const SAMPLES: [&str; 12] = [
    "",
    "a",
    "  a  b\t c ",
    "\u{3000}x\u{85}y\u{a0}z\u{2028}",
    "one\ntwo\r\nthree",
    "end\n",
    "a\r",
    "\n\n",
    "x\r\n\r\n",
    "a\tb\t\tc\t",
    "測試\u{200a}space",
    "\r\n",
];

#[test]
fn words_agree_with_split_whitespace() {
    for t in SAMPLES {
        let want: Vec<String> = t.split_whitespace().map(String::from).collect();
        assert_eq!(texts(&words_of(&chars_of(t))), want, "{t:?}");
    }
}

#[test]
fn lines_agree_with_str_lines() {
    for t in SAMPLES {
        let want: Vec<String> = t.lines().map(String::from).collect();
        assert_eq!(texts(&lines_of(&chars_of(t))), want, "{t:?}");
    }
}

#[test]
fn split_agrees_with_str_split() {
    for t in SAMPLES {
        let want: Vec<String> = t.split('\t').map(String::from).collect();
        assert_eq!(texts(&split_of(&chars_of(t), '\t')), want, "{t:?}");
    }
}

#[test]
fn trim_agrees_with_str_trim() {
    for t in SAMPLES {
        assert_eq!(s(&trim_of(&chars_of(t))), t.trim(), "{t:?}");
    }
}

#[test]
fn join_puts_one_separator_between_words() {
    let ws = vec![chars_of("a"), chars_of("bc"), chars_of("")];
    assert_eq!(s(&join_of(&ws, ' ')), "a bc ");
    assert_eq!(s(&join_of(&Vec::new(), ' ')), "");
}

#[test]
fn whitespace_set_matches_char_is_whitespace() {
    for c in (0u32..0x3100).filter_map(char::from_u32) {
        assert_eq!(lib::text::space(c), c.is_whitespace(), "{c:?}");
    }
}

#[test]
fn parse_u16_agrees_with_std() {
    let cases = [
        "", "+", "-", "0", "+7", "-7", "65535", "65536", "070000", "99999x", "12a", "८", "00012",
        " 1", "+-1", "655350",
    ];
    for t in cases {
        let mine = parse_u16_of(&chars_of(t)).map_err(|e| e.text());
        let std = t.parse::<u16>().map_err(|e| e.to_string());
        assert_eq!(mine, std, "{t:?}");
    }
    assert_eq!(parse_u16_of(&chars_of("")), Err(IntError::Empty));
    assert_eq!(parse_u16_of(&chars_of("x")), Err(IntError::InvalidDigit));
    assert_eq!(parse_u16_of(&chars_of("65536")), Err(IntError::Overflow));
}

#[test]
fn decimal_agrees_with_display() {
    for n in [0u64, 7, 10, 255, 65535, 1234567890123] {
        assert_eq!(s(&decimal_of(n)), n.to_string());
    }
    for n in 0..=u16::MAX {
        assert_eq!(parse_u16_of(&decimal_of(n as u64)), Ok(n));
    }
}

#[test]
fn string_of_keeps_characters() {
    assert_eq!(string_of(&chars_of("ä😀\t")), "ä😀\t");
}

#[test]
fn hex_writes_utf8_bytes_in_lower_case() {
    assert_eq!(hex(""), "");
    assert_eq!(hex("A\t"), "4109");
    assert_eq!(hex("é"), "c3a9");
    assert_eq!(hex("\u{ff}\u{10ffff}"), "c3bff48fbfbf");
}

#[test]
fn unhex_reads_pairs_like_from_str_radix() {
    let digits = "0123456789abcdefABCDEF+-gz ";
    for a in digits.chars() {
        for b in digits.chars() {
            let pair: String = [a, b].iter().collect();
            let want = u8::from_str_radix(&pair, 16)
                .map_err(|e| e.to_string())
                .and_then(|byte| String::from_utf8(vec![byte]).map_err(|e| e.to_string()));
            assert_eq!(unhex(&pair), want, "{pair:?}");
        }
    }
}

#[test]
fn unhex_errors() {
    assert_eq!(unhex("abc"), Err("Invalid config encoding".to_string()));
    assert_eq!(unhex("é0"), Err("Invalid config encoding".to_string()));
    assert_eq!(unhex("zz"), Err("invalid digit found in string".to_string()));
    let bad = String::from_utf8(vec![0xc3]).unwrap_err().to_string();
    assert_eq!(unhex("c3"), Err(bad));
    assert_eq!(unhex("+f"), Ok("\u{f}".to_string()));
    assert_eq!(unhex(""), Ok(String::new()));
}

#[test]
fn unhex_undoes_hex() {
    for t in SAMPLES {
        assert_eq!(unhex(&hex(t)).unwrap(), t);
    }
}

fn rule(original: &str, mapped: &str, command: &str, shortcut: &str) -> Rule {
    Rule {
        original: original.into(),
        mapped: mapped.into(),
        command: command.into(),
        shortcut: shortcut.into(),
    }
}

fn same(a: &BTreeMap<u16, Rule>, b: &BTreeMap<u16, Rule>) -> bool {
    a.len() == b.len()
        && a.iter().zip(b.iter()).all(|((ka, ra), (kb, rb))| {
            ka == kb
                && ra.original == rb.original
                && ra.mapped == rb.mapped
                && ra.command == rb.command
                && ra.shortcut == rb.shortcut
        })
}

#[test]
fn encode_writes_one_line_per_rule_in_key_order() {
    let rules = BTreeMap::from([
        (132, rule("yen", "space", "", "")),
        (102, rule("A", "B", "kitty", "F13")),
    ]);
    assert_eq!(encode(&rules), "102\t41\t42\t6b69747479\t463133\n132\t79656e\t7370616365\t\t\n");
    assert_eq!(encode(&BTreeMap::new()), "");
}

#[test]
fn decode_reads_back_encode() {
    let rules = BTreeMap::from([
        (8, rule("", "", "", "")),
        (100, rule("Muhenkan NoSymbol", "space space", "gio launch '/x y.desktop'", "F13")),
        (255, rule("測試\t\n", "a\r", "%\"$`", "\\")),
    ]);
    let back = decode(&encode(&rules)).unwrap();
    assert!(same(&back, &rules));
}

#[test]
fn decode_errors_name_the_first_bad_line() {
    assert_eq!(decode("102\t00").unwrap_err(), "Invalid saved rule");
    assert_eq!(decode("999\t\t\t\t").unwrap_err(), "Invalid or duplicate keycode");
    assert_eq!(decode("7\t\t\t\t").unwrap_err(), "Invalid or duplicate keycode");
    assert_eq!(decode("8\t\t\t\t\n8\t\t\t\t\n").unwrap_err(), "Invalid or duplicate keycode");
    assert_eq!(decode("x\t\t\t\t").unwrap_err(), "x".parse::<u16>().unwrap_err().to_string());
    assert_eq!(decode("\t\t\t\t").unwrap_err(), "".parse::<u16>().unwrap_err().to_string());
    assert_eq!(
        decode("70000\t\t\t\t").unwrap_err(),
        "70000".parse::<u16>().unwrap_err().to_string()
    );
    assert_eq!(decode("9\tzz\t\t\t\n10\t1").unwrap_err(), "invalid digit found in string");
    assert_eq!(decode("9\t\tq\t\t").unwrap_err(), "Invalid config encoding");
}

#[test]
fn decode_accepts_crlf_and_empty_text() {
    assert!(decode("").unwrap().is_empty());
    let r = decode("+9\t41\t42\t\t\r\n").unwrap();
    assert_eq!(r[&9].original, "A");
    assert_eq!(r[&9].mapped, "B");
    assert!(decode("9\t41\t42\t\t\r").is_err());
}
