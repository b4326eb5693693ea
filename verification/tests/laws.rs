use rust_edn::{read_str, rust_edn, Edn};

#[test]
fn integer_text_reads_back() {
    for n in [0i64, 1, -1, 42, -42, 1000000, i64::MAX, i64::MIN, i64::MIN + 1] {
        let text = Edn::Int(n).to_text();
        assert_eq!(text, n.to_string());
        match read_str(text.clone()) {
            Ok(Edn::Int(m)) => assert_eq!(m, n),
            other => panic!("{} read as {:?}", text, other),
        }
        assert_eq!(rust_edn(&text), Ok(text.clone()));
    }
}

#[test]
fn sets_print_ascending_without_duplicates() {
    assert_eq!(rust_edn("#{5 3 5 1 3}"), Ok("#{1 3 5}".to_string()));
    assert_eq!(rust_edn("#{:b \"b\" b \\b nil}"), Ok("#{nil \"b\" \\b b :b}".to_string()));
    assert_eq!(rust_edn("#{[2] (1) [1]}"), Ok("#{(1) [1] [2]}".to_string()));
    assert_eq!(rust_edn("#{}"), Ok("#{}".to_string()));
}

#[test]
fn maps_keep_the_last_value_of_each_key() {
    assert_eq!(rust_edn("{:z 1 :a 2 :z 3}"), Ok("{:a 2, :z 3}".to_string()));
    assert_eq!(rust_edn("{2 :x 1 :y 2 :w}"), Ok("{1 :y, 2 :w}".to_string()));
    assert_eq!(rust_edn("{}"), Ok("{}".to_string()));
}

#[test]
fn order_is_total_on_samples() {
    assert_eq!(rust_edn("#{9223372036854775808 -1 1N 0}"), Ok("#{-1 0 1N 9223372036854775808N}".to_string()));
    assert_eq!(rust_edn("#{##NaN ##-Inf 1}"), Ok("#{1 -inf NaN}".to_string()));
}

#[test]
fn big_integer_text_reads_back() {
    for text in ["1N", "-1N", "12N", "9223372036854775808N", "-123456789012345678901234567890N"] {
        assert_eq!(rust_edn(text), Ok(text.to_string()));
        match read_str(text.to_string()) {
            Ok(e @ Edn::BigInt(_)) => assert_eq!(e.to_text(), text),
            other => panic!("{} read as {:?}", text, other),
        }
    }
    assert_eq!(rust_edn("0N"), Ok("0N".to_string()));
}

#[test]
fn plain_text_reads_back() {
    let texts = [
        "nil",
        "true",
        "false",
        "-42",
        "7N",
        "\"a \\\"quoted\\\" \\\\ text\\twith\\nbreaks\"",
        "\\a",
        "\\(",
        "sym",
        "a-b.c?",
        ":kw",
        ":k!*",
        "(1 (2 [3]) \"s\")",
        "[nil true :a b]",
        "#{1 2 3}",
        "#{nil \"x\" \\c sym :kw 5 (1) [2]}",
        "{:a 1, :b [2 3], :c {:d #{4}}}",
        "#inst \"2020\"",
        "#uuid [1 2]",
        "[#inst \"a\" \\b \\  ]",
        "(<= a+b# *x* 'q :&k ?.)",
        "[ns/name :ns/name a.b/c-d {:x/y 1}]",
        "[\"\u{e9}t\u{e9} \\b\\f\" \\space \\newline \\\u{e9} 0N -0x10 2r101]",
        "[1.5 -0.25 0.001 #{2.5 1.25}]",
    ];
    for text in texts {
        let printed = rust_edn(text).unwrap();
        let v = read_str(printed.clone()).unwrap();
        assert_eq!(v.to_text(), printed, "{}", text);
        assert_eq!(rust_edn(&printed), Ok(printed.clone()), "{}", text);
    }
}

#[test]
fn printing_is_stable() {
    let texts = [
        "#{:b :a :b}",
        "{:b 1 :a 2 :b 3}",
        "  ( été  a#b 'q , ns/x )  trailing",
        "0x1F",
        "-0N",
        "\\u0041",
        "\"\\u0041\\101\"",
        "[1.50 1e3 -2.5e-2 1e400]",
        "#{2.5M -1e3M #:ns{:1a 1}}",
    ];
    for text in texts {
        let once = rust_edn(text).unwrap();
        let twice = rust_edn(&once).unwrap();
        assert_eq!(twice, once, "{}", text);
    }
    assert_eq!(rust_edn("#{:b :a :b}"), Ok("#{:a :b}".to_string()));
    assert_eq!(rust_edn("1/3"), Ok("1/3R".to_string()));
    assert_eq!(rust_edn("1/3R"), Err("Invalid number: 1/3R".to_string()));
    assert_eq!(rust_edn("{:b 1 :a 2 :b 3}"), Ok("{:a 2, :b 3}".to_string()));
}
