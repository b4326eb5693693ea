use rust_edn::bigint::BigInteger;
use rust_edn::number::{match_number, read_number};
use rust_edn::syntax::ReadFailure;
use rust_edn::order::compare_edn;
use rust_edn::{Decimal, EdnMap, EdnSet, FloatNumber, Ratio};
use rust_edn::{
    clojure_reply, is_macro, is_terminating_macro, is_whitespace, non_constituent, read, read_str,
    read_token, read_unicode_char, read_unicode_char_from_token, skip_whitespace, sym_split,
    Edn, FloatValue, Reader,
};

fn set_value(items: Vec<Edn>) -> Edn {
    let mut s = EdnSet::new();
    for x in items {
        s.insert(x);
    }
    Edn::SetOf(s)
}

fn map_value(entries: Vec<(Edn, Edn)>) -> Edn {
    let mut m = EdnMap::new();
    for (k, v) in entries {
        m.insert(k, v);
    }
    Edn::MapOf(m)
}

fn text_of(e: &Edn) -> String {
    e.to_text()
}

#[test]
fn reader_reads_forms_one_after_another() {
    let mut r = Reader::new("1 [2 3] foo");
    assert_eq!(r.offset(), 0);
    assert!(!r.at_end());
    let a = read(&mut r, true, Edn::Nil, false).unwrap();
    assert_eq!(text_of(&a), "1");
    assert_eq!(r.offset(), 1);
    let b = read(&mut r, true, Edn::Nil, false).unwrap();
    assert_eq!(text_of(&b), "[2 3]");
    assert_eq!(r.offset(), 7);
    let c = read(&mut r, true, Edn::Nil, false).unwrap();
    assert!(matches!(c, Edn::Symbol(ref s) if s == "foo"));
    assert!(r.at_end());
}

#[test]
fn reader_stops_where_an_error_stops_it() {
    let mut r = Reader::new(") 5");
    assert_eq!(read(&mut r, true, Edn::Nil, false).unwrap_err(), "Unmatched Delimiter: )");
    assert_eq!(r.offset(), 1);
    let n = read(&mut r, true, Edn::Nil, false).unwrap();
    assert!(matches!(n, Edn::Int(5)));
}

#[test]
fn read_str_gives_values() {
    let v = read_str("[1 \"a\" :k]".to_string()).unwrap();
    match v {
        Edn::Vec(items) => {
            assert_eq!(items.len(), 3);
            assert!(matches!(items[0], Edn::Int(1)));
            assert!(matches!(items[1], Edn::String(ref s) if s == "a"));
            assert!(matches!(items[2], Edn::Keyword(ref s) if s == "k"));
        }
        _ => panic!("not a vector"),
    }
    assert!(matches!(read_str("##Inf".to_string()), Ok(Edn::Float(FloatValue::Infinity))));
    assert!(matches!(read_str("\\x".to_string()), Ok(Edn::Char('x'))));
    assert_eq!(read_str("{:a}".to_string()).unwrap_err(), "Map literal must contain an even number of forms");
}

#[test]
fn read_str_reports_the_end_of_input() {
    assert_eq!(read_str(String::new()).unwrap_err(), "EOF while reading");
    assert_eq!(read_str("  ; only a comment".to_string()).unwrap_err(), "EOF while reading");
    assert!(read_str("[1".to_string()).is_err());
    assert!(matches!(read_str("nil".to_string()), Ok(Edn::Nil)));
    let mut r = Reader::new("+");
    assert_eq!(read(&mut r, true, Edn::Nil, false), Ok(Edn::Symbol("+".to_string())));
    let mut r = Reader::new("-");
    assert_eq!(read(&mut r, true, Edn::Nil, false), Ok(Edn::Symbol("-".to_string())));
}

#[test]
fn skip_whitespace_skips_commas_and_unicode_spaces() {
    let mut r = Reader::new(" ,\u{a0}\u{2003}x");
    skip_whitespace(&mut r);
    assert_eq!(r.offset(), 4);
    let mut r = Reader::new("x ");
    skip_whitespace(&mut r);
    assert_eq!(r.offset(), 0);
}

#[test]
fn read_token_reads_to_a_terminator() {
    let mut r = Reader::new("bc d");
    assert_eq!(read_token(&mut r, 'a', true), Ok("abc".to_string()));
    assert_eq!(r.offset(), 2);
    let mut r = Reader::new("b#c(");
    assert_eq!(read_token(&mut r, 'a', true), Ok("ab#c".to_string()));
    assert_eq!(r.offset(), 3);
    let mut r = Reader::new("x");
    assert_eq!(read_token(&mut r, '@', true), Err("Invalid leading leading character: @".to_string()));
    let mut r = Reader::new("x");
    assert_eq!(read_token(&mut r, '@', false), Ok("@x".to_string()));
    let mut r = Reader::new("b~c");
    assert_eq!(read_token(&mut r, 'a', true), Err("Invalid contituent character: ~".to_string()));
    assert_eq!(r.offset(), 1);
}

#[test]
fn read_unicode_char_reads_codes() {
    let mut r = Reader::new("041\"");
    assert_eq!(read_unicode_char(&mut r, '0', 16, 4, true), Ok('A'));
    assert_eq!(r.offset(), 3);
    let mut r = Reader::new("0123");
    assert_eq!(read_unicode_char(&mut r, '1', 8, 3, false), Ok('A'));
    assert_eq!(r.offset(), 2);
    let mut r = Reader::new("04\"");
    assert_eq!(
        read_unicode_char(&mut r, '0', 16, 4, true),
        Err("Invalid character length: 3, should be: 4".to_string())
    );
    let mut r = Reader::new("0");
    assert_eq!(read_unicode_char(&mut r, 'z', 16, 3, false), Err("Invalid digit: z".to_string()));
    let mut r = Reader::new("0g");
    assert_eq!(read_unicode_char(&mut r, '0', 16, 3, false), Err("Invalid digit: g".to_string()));
    let mut r = Reader::new("800");
    assert_eq!(read_unicode_char(&mut r, 'D', 16, 4, false), Err("Invalid character: 55296".to_string()));
    let mut r = Reader::new("12");
    assert_eq!(read_unicode_char(&mut r, '9', 8, 3, false), Err("Invalid digit: 9".to_string()));
    let mut r = Reader::new("0FFFF");
    assert_eq!(read_unicode_char(&mut r, '1', 16, 7, true), Err("Invalid character length: 6, should be: 7".to_string()));
    let mut r = Reader::new("0FFFF");
    assert_eq!(read_unicode_char(&mut r, '1', 16, 6, true), Ok('\u{10FFFF}'));
    let mut r = Reader::new("10000");
    assert_eq!(read_unicode_char(&mut r, '1', 16, 6, false), Err("Invalid character: 1114112".to_string()));
}

#[test]
fn read_unicode_char_from_token_reads_codes() {
    assert_eq!(read_unicode_char_from_token("u0041", 1, 4, 16), Ok(Some('A')));
    assert_eq!(read_unicode_char_from_token("u00e9", 1, 4, 16), Ok(Some('\u{e9}')));
    assert_eq!(read_unicode_char_from_token("uD800", 1, 4, 16), Ok(None));
    assert_eq!(
        read_unicode_char_from_token("u00", 1, 4, 16),
        Err("Invalid unicode character: \\u00".to_string())
    );
    assert_eq!(read_unicode_char_from_token("uZZZZ", 1, 4, 16), Err("Invalid digit: Z".to_string()));
    assert_eq!(read_unicode_char_from_token("o101", 1, 3, 8), Ok(Some('A')));
    assert_eq!(read_unicode_char_from_token("x10FFFF", 1, 6, 16), Ok(Some('\u{10FFFF}')));
    assert_eq!(read_unicode_char_from_token("x110000", 1, 6, 16), Ok(None));
    assert_eq!(read_unicode_char_from_token("\u{e9}12", 1, 2, 16), Ok(Some('\u{12}')));
    assert_eq!(
        read_unicode_char_from_token("\u{e9}12", 1, 3, 16),
        Err("Invalid unicode character: \\\u{e9}12".to_string())
    );
}

#[test]
fn sym_split_splits_namespace_and_name() {
    assert_eq!(sym_split("ns/name"), Some((Some("ns/".to_string()), "name".to_string())));
    assert_eq!(sym_split("name"), Some((None, "name".to_string())));
    assert_eq!(sym_split(":kw"), Some((None, "kw".to_string())));
    assert_eq!(sym_split("a/b/c"), Some((Some("a/b/".to_string()), "c".to_string())));
    assert_eq!(sym_split("/"), Some((None, "/".to_string())));
    assert_eq!(sym_split("1a"), None);
    assert_eq!(sym_split("\u{663}"), None);
    assert_eq!(sym_split("a/"), None);
    assert_eq!(sym_split("/a"), None);
}

#[test]
fn character_classes() {
    for c in ['"', ';', '^', '(', ')', '[', ']', '{', '}', '\\', '#'] {
        assert!(is_macro(c), "{:?}", c);
    }
    assert!(!is_macro('a'));
    assert!(!is_macro('\''));
    assert!(is_terminating_macro('('));
    assert!(!is_terminating_macro('#'));
    assert!(!is_terminating_macro('\''));
    assert!(non_constituent('@'));
    assert!(non_constituent('`'));
    assert!(non_constituent('~'));
    assert!(!non_constituent('a'));
    assert!(is_whitespace(','));
    assert!(is_whitespace(' '));
    assert!(is_whitespace('\n'));
    assert!(is_whitespace('\u{2003}'));
    assert!(is_whitespace('\u{85}'));
    assert!(is_whitespace('\u{3000}'));
    assert!(!is_whitespace('\u{180e}'));
    assert!(!is_whitespace('\u{200b}'));
    assert!(!is_whitespace('a'));
}

#[test]
fn printing_constructed_values() {
    assert_eq!(Edn::Nil.to_text(), "nil");
    assert_eq!(Edn::Bool(false).to_text(), "false");
    assert_eq!(Edn::Int(-42).to_text(), "-42");
    assert_eq!(Edn::Int(i64::MIN).to_text(), "-9223372036854775808");
    assert_eq!(Edn::Char('\n').to_text(), "\\newline");
    assert_eq!(Edn::Char(' ').to_text(), "\\space");
    assert_eq!(Edn::Char('\u{e9}').to_text(), "\\\u{e9}");
    assert_eq!(Edn::String("a\"b\\c'\u{1}\u{8}\u{e9}".to_string()).to_text(), "\"a\\\"b\\\\c'\u{1}\\b\u{e9}\"");
    assert_eq!(Edn::String("x\r\ny\r".to_string()).to_text(), "\"x\\ny\\r\"");
    assert_eq!(Edn::Symbol("ns/x".to_string()).to_text(), "ns/x");
    assert_eq!(Edn::Keyword("k".to_string()).to_text(), ":k");
    assert_eq!(Edn::BigInt(BigInteger::from_digits(true, vec![1, 2])).to_text(), "-12N");
    assert_eq!(Edn::Float(FloatValue::NegInfinity).to_text(), "-inf");
    assert_eq!(Edn::Float(FloatValue::NaN).to_text(), "NaN");
    assert_eq!(Edn::List(vec![]).to_text(), "()");
    assert_eq!(Edn::Vec(vec![Edn::Int(1), Edn::Nil]).to_text(), "[1 nil]");
    assert_eq!(set_value(vec![Edn::Int(2), Edn::Int(1)]).to_text(), "#{1 2}");
    assert_eq!(
        map_value(vec![
            (Edn::Keyword("a".to_string()), Edn::Int(1)),
            (Edn::Keyword("b".to_string()), Edn::List(vec![Edn::Int(2)])),
        ])
        .to_text(),
        "{:a 1, :b (2)}"
    );
    assert_eq!(
        Edn::TaggedElement("inst".to_string(), Box::new(Edn::String("x".to_string()))).to_text(),
        "#inst \"x\""
    );
}

#[test]
fn compare_edn_orders_variants_then_values() {
    assert_eq!(compare_edn(&Edn::Nil, &Edn::Bool(false)), -1);
    assert_eq!(compare_edn(&Edn::Bool(true), &Edn::Bool(false)), 1);
    assert_eq!(compare_edn(&Edn::String("z".to_string()), &Edn::Int(0)), -1);
    assert_eq!(compare_edn(&Edn::Int(5), &Edn::BigInt(BigInteger::from_digits(true, vec![1]))), -1);
    assert_eq!(compare_edn(&Edn::Int(2), &Edn::Int(10)), -1);
    assert_eq!(compare_edn(&Edn::Int(10), &Edn::Int(10)), 0);
    assert_eq!(
        compare_edn(
            &Edn::BigInt(BigInteger::from_digits(false, vec![9])),
            &Edn::BigInt(BigInteger::from_digits(false, vec![1, 0]))
        ),
        -1
    );
    assert_eq!(
        compare_edn(
            &Edn::BigInt(BigInteger::from_digits(true, vec![9])),
            &Edn::BigInt(BigInteger::from_digits(true, vec![1, 0]))
        ),
        1
    );
    assert_eq!(compare_edn(&Edn::Symbol("ab".to_string()), &Edn::Symbol("b".to_string())), -1);
    assert_eq!(compare_edn(&Edn::Symbol("ab".to_string()), &Edn::Symbol("a".to_string())), 1);
    assert_eq!(compare_edn(&Edn::Float(FloatValue::NaN), &Edn::Float(FloatValue::Infinity)), 1);
    assert_eq!(
        compare_edn(&Edn::Vec(vec![Edn::Int(1)]), &Edn::Vec(vec![Edn::Int(1), Edn::Int(0)])),
        -1
    );
    assert_eq!(compare_edn(&Edn::List(vec![Edn::Int(9)]), &Edn::Vec(vec![])), -1);
}

#[test]
fn compare_edn_is_antisymmetric_on_samples() {
    let values = vec![
        Edn::Nil,
        Edn::Bool(true),
        Edn::String("s".to_string()),
        Edn::Char('c'),
        Edn::Symbol("x".to_string()),
        Edn::Keyword("k".to_string()),
        Edn::Int(-3),
        Edn::Int(7),
        Edn::Float(FloatValue::Infinity),
        Edn::List(vec![Edn::Int(1)]),
        Edn::Vec(vec![Edn::Int(1)]),
        set_value(vec![Edn::Int(1)]),
        map_value(vec![(Edn::Int(1), Edn::Nil)]),
        Edn::TaggedElement("uuid".to_string(), Box::new(Edn::Nil)),
    ];
    for (i, a) in values.iter().enumerate() {
        assert_eq!(compare_edn(a, a), 0);
        for (j, b) in values.iter().enumerate() {
            assert_eq!(compare_edn(a, b), -compare_edn(b, a));
            if i < j {
                assert_eq!(compare_edn(a, b), -1, "{} {}", i, j);
            }
        }
    }
}

#[test]
fn set_insert_keeps_one_of_each_in_order() {
    let mut s = EdnSet::new();
    s.insert(Edn::Int(3));
    s.insert(Edn::Int(1));
    s.insert(Edn::Int(3));
    s.insert(Edn::Nil);
    assert_eq!(s.len(), 3);
    assert_eq!(Edn::SetOf(s).to_text(), "#{nil 1 3}");
}

#[test]
fn map_insert_keeps_the_last_value_of_a_key() {
    let mut m = EdnMap::new();
    m.insert(Edn::Keyword("b".to_string()), Edn::Int(1));
    m.insert(Edn::Keyword("a".to_string()), Edn::Int(2));
    m.insert(Edn::Keyword("b".to_string()), Edn::Int(3));
    assert_eq!(m.len(), 2);
    assert_eq!(
        m.entry_list(),
        &vec![
            (Edn::Keyword("a".to_string()), Edn::Int(2)),
            (Edn::Keyword("b".to_string()), Edn::Int(3)),
        ]
    );
    assert_eq!(Edn::MapOf(m).to_text(), "{:a 2, :b 3}");
}

#[test]
fn number_texts() {
    let cs = |t: &str| t.chars().collect::<Vec<char>>();
    assert_eq!(match_number(&cs("x1")), None);
    assert_eq!(match_number(&cs("-")), None);
    assert_eq!(match_number(&cs("+7")), Some(Edn::Int(7)));
    assert_eq!(match_number(&cs("-0N")), Some(Edn::BigInt(BigInteger::zero())));
    assert_eq!(match_number(&cs("0N")), Some(Edn::BigInt(BigInteger::zero())));
    assert_eq!(match_number(&cs("0x10")), Some(Edn::Int(16)));
    assert_eq!(match_number(&cs("2r101")), Some(Edn::Int(5)));
    assert_eq!(match_number(&cs("017")), Some(Edn::Int(15)));
    assert_eq!(match_number(&cs("08")), None);
    assert_eq!(
        match_number(&cs("1.5")),
        Some(Edn::Float(FloatValue::Finite(FloatNumber::new(Decimal::new(
            BigInteger::from_digits(false, vec![1, 5]),
            1
        )))))
    );
    assert_eq!(
        match_number(&cs("-25e-1M")),
        Some(Edn::BigDecimal(Decimal::new(BigInteger::from_digits(true, vec![2, 5]), 1)))
    );
    assert_eq!(
        match_number(&cs("-4/6")),
        Some(Edn::BigRational(Ratio::new(
            BigInteger::from_digits(true, vec![2]),
            BigInteger::from_digits(false, vec![3])
        )))
    );
    assert_eq!(match_number(&cs("4/0")), None);
    assert_eq!(match_number(&cs("12abc")), None);
    assert_eq!(match_number(&cs("99r1")), None);
    assert_eq!(
        match_number(&cs("0x10000000000000000")),
        Some(Edn::BigInt(BigInteger::from_digits(false, vec![1, 8, 4, 4, 6, 7, 4, 4, 0, 7, 3, 7, 0, 9, 5, 5, 1, 6, 1, 6])))
    );
    assert_eq!(match_number(&cs("15N")), Some(Edn::BigInt(BigInteger::from_digits(false, vec![1, 5]))));
    match read_number(&cs("2abc"), 0, '1') {
        Err(ReadFailure::Error(m, _)) => assert_eq!(m, "Invalid number: 12abc"),
        other => panic!("{:?}", other),
    }
    match read_number(&cs("yz ("), 0, 'x') {
        Err(ReadFailure::Error(m, q)) => {
            assert_eq!(m, "Invalid number: xyz");
            assert_eq!(q, 2);
        }
        other => panic!("{:?}", other),
    }
    match read_number(&cs("23]"), 0, '1') {
        Ok((e, q)) => {
            assert_eq!(e, Edn::Int(123));
            assert_eq!(q, 2);
        }
        other => panic!("{:?}", other),
    }
}

const NOTICE: &str = "Picked up _JAVA_OPTIONS: -Djava.util.prefs.userRoot=/home/user/.config/java\n";

#[test]
fn clojure_reply_reads_the_streams() {
    assert_eq!(clojure_reply("  {:a 1}\n", NOTICE), Ok("{:a 1}".to_string()));
    let err = format!("{}Execution error\nSyntax error reading source\nmore\n", NOTICE);
    assert_eq!(clojure_reply("", &err), Err("Syntax error reading source".to_string()));
    let err = format!("{}  only one line  ", NOTICE);
    assert_eq!(clojure_reply("out ", &err), Ok("out".to_string()));
    let err = format!("{}a\nb", NOTICE);
    assert_eq!(clojure_reply("x", &err), Err("xb".to_string()));
    let err = format!("{}\n\n first\n second \n", NOTICE);
    assert_eq!(clojure_reply(" o", &err), Err("o second".to_string()));
}

#[test]
fn number_parts() {
    match read_str("-12.50M".to_string()) {
        Ok(Edn::BigDecimal(d)) => {
            assert_eq!(d.unscaled(), &BigInteger::from_digits(true, vec![1, 2, 5, 0]));
            assert_eq!(d.scale(), 2);
        }
        other => panic!("{:?}", other),
    }
    match read_str("6/-4".to_string()) {
        Err(m) => assert_eq!(m, "Invalid number: 6/-4"),
        other => panic!("{:?}", other),
    }
    match read_str("-6/4".to_string()) {
        Ok(Edn::BigRational(q)) => {
            assert_eq!(q.numer(), &BigInteger::from_digits(true, vec![3]));
            assert_eq!(q.denom(), &BigInteger::from_digits(false, vec![2]));
        }
        other => panic!("{:?}", other),
    }
    match read_str("12.50e1".to_string()) {
        Ok(Edn::Float(FloatValue::Finite(f))) => {
            assert_eq!(f.value().unscaled(), &BigInteger::from_digits(false, vec![1, 2, 5]));
            assert_eq!(f.value().scale(), 0);
        }
        other => panic!("{:?}", other),
    }
    assert_eq!(
        Edn::BigDecimal(Decimal::new(BigInteger::from_digits(false, vec![2, 5]), -2)).to_text(),
        "2500M"
    );
    assert_eq!(
        Edn::BigRational(Ratio::new(BigInteger::from_digits(false, vec![7]), BigInteger::one())).to_text(),
        "7R"
    );
}
