use rust_edn::rust_edn;

fn printed(input: &str) -> Result<String, String> {
    rust_edn(input)
}

fn ok(input: &str, expected: &str) {
    assert_eq!(printed(input), Ok(expected.to_string()), "input {:?}", input);
}

fn err(input: &str, expected: &str) {
    assert_eq!(printed(input), Err(expected.to_string()), "input {:?}", input);
}


#[test]
fn reads_nil_and_booleans() {
    ok("nil", "nil");
    ok("true", "true");
    ok("  false  ", "false");
}

#[test]
fn reads_integers() {
    ok("42", "42");
    ok("-17", "-17");
    ok("+5", "5");
    ok("0", "0");
    ok("-0", "0");
    ok("9223372036854775807", "9223372036854775807");
    ok("-9223372036854775808", "-9223372036854775808");
}

#[test]
fn reads_big_integers() {
    ok("12N", "12N");
    ok("-3N", "-3N");
    ok("9223372036854775808", "9223372036854775808N");
    ok("-9223372036854775809", "-9223372036854775809N");
    ok("123456789012345678901234567890", "123456789012345678901234567890N");
    ok("0N", "0N");
    ok("-0N", "0N");
}

#[test]
fn numbers_match_the_whole_token() {
    ok("007", "7");
    ok("0x1F", "31");
    ok("-0x10N", "-16N");
    ok("2r101", "5");
    ok("36rZz", "1295");
    ok("1.5", "1.5");
    ok("1e3", "1000");
    ok("1.5M", "1.5M");
    err("123abc", "Invalid number: 123abc");
    ok("1/2", "1/2R");
    err("08", "Invalid number: 08");
    err("37r1", "Invalid number: 37r1");
    err("2r3", "Invalid number: 2r3");
    ok("(1 2)", "(1 2)");
}

#[test]
fn reads_strings() {
    ok("\"hello\"", "\"hello\"");
    ok("\"a\\tb\"", "\"a\\tb\"");
    ok("\"it's\"", "\"it's\"");
    ok("\"q\\\"q\"", "\"q\\\"q\"");
    ok("\"back\\\\slash\"", "\"back\\\\slash\"");
    ok("\"\\101\"", "\"A\"");
    ok("\"\\b\\f\"", "\"\\b\\f\"");
    ok("\"\u{e9}\"", "\"\u{e9}\"");
    ok("\"a\r\nb\"", "\"a\\nb\"");
    ok("\"a\rb\"", "\"a\\rb\"");
}

#[test]
fn string_errors() {
    err("\"\\400\"", "Octal escape sequence must be in range [0, 377].");
    err("\"\\q\"", "Unsupported escape character: \\q");
    err("\"\\uZ\"", "Unvalid unicode escape: \\uZ");
    ok("\"\\u0041\"", "\"A\"");
    ok("\"x\\u00e9y\"", "\"x\u{e9}y\"");
    err("\"\\u004\"", "Invalid character length: 3, should be: 4");
    err("\"\\uD800\"", "Invalid character: 55296");
    ok("\"\\1234\"", "\"S4\"");
    err("\"\\9\"", "Invalid digit: 9");
    err("\"abc", "EOF while reading string");
    err("\"abc\\", "EOF while reading string");
}

#[test]
fn reads_characters() {
    ok("\\a", "\\a");
    ok("\\newline", "\\newline");
    ok("\\tab", "\\tab");
    ok("\\return", "\\return");
    ok("\\backspace", "\\backspace");
    ok("\\formfeed", "\\formfeed");
    ok("\\u0041", "\\A");
    ok("\\o", "\\o");
    ok("\\(", "\\(");
}

#[test]
fn character_errors() {
    ok("\\space", "\\space");
    ok("\\o101", "\\A");
    ok("\\o12", "\\newline");
    err("\\o400", "Octal escape sequence must be in range [0, 377].");
    err("\\o1234", "Invalid octal escape sequence length: 4");
    err("\\o9", "Invalid digit: 9");
    err("\\foo", "Unsupported character: \\foo");
    err("\\uZZZZ", "Invalid digit: Z");
    err("\\u00", "Invalid unicode character: \\u00");
    err("\\uD800", "Invalid character constant: \\uD800");
    ok("\\\u{e9}", "\\\u{e9}");
    err("\\", "EOF while reading character");
}

#[test]
fn reads_symbols_and_keywords() {
    ok("foo", "foo");
    ok(":bar", ":bar");
    ok("ns/name", "ns/name");
    ok(":ns/name", ":ns/name");
    ok("/", "/");
    ok("+x", "+x");
    ok("- ", "-");
    ok(":1", ":1");
}

#[test]
fn symbol_errors() {
    err("::a", "Invalid token: ::a");
    err("a:", "Invalid token: a:");
    err("a::b", "Invalid token: a::b");
    err("@foo", "Invalid leading leading character: @");
    err("fo@o", "Invalid contituent character: @");
    ok("\u{e9}t\u{e9}", "\u{e9}t\u{e9}");
    ok("+", "+");
    ok("-", "-");
    ok("+ 1", "+");
    err("a/", "Invalid token: a/");
    err("/a", "Invalid token: /a");
    err("a/1", "Invalid token: a/1");
    ok("a//", "a//");
}

#[test]
fn reads_collections() {
    ok("(1 2 3)", "(1 2 3)");
    ok("[1, 2]", "[1 2]");
    ok("()", "()");
    ok("[[1] (2)]", "[[1] (2)]");
    ok("{:b 2 :a 1}", "{:a 1, :b 2}");
    ok("{:a 1 :a 2}", "{:a 2}");
    ok("#{3 1 2 1}", "#{1 2 3}");
    ok("#{\"a\" 1 nil :k}", "#{nil \"a\" :k 1}");
}

#[test]
fn collection_errors() {
    err("{:a}", "Map literal must contain an even number of forms");
    err("(1 2", "EOF while reading");
    err("(1 ]", "Unmatched Delimiter: ]");
    err(")", "Unmatched Delimiter: )");
}

#[test]
fn skips_comments_and_discarded_forms() {
    ok("; hi\n42", "42");
    ok("#_ 1 2", "2");
    ok("[1 #_ 2 3]", "[1 3]");
    ok("(1 ; two\n 3)", "(1 3)");
}

#[test]
fn reads_metadata_and_tags() {
    ok("^:m [1]", "[1]");
    ok("#^{:a 1} x", "x");
    err("^1 x", "Metadata must be Symbol,Keyword,String or Map");
    ok("#inst \"2020\"", "#inst \"2020\"");
    ok("#uuid \"u\"", "#uuid \"u\"");
    err("#foo 1", "No reader function for tag foo");
    err("#1", "No dispatch macro for: 1");
    err("#<foo>", "Unreadable form");
}

#[test]
fn reads_symbolic_values() {
    ok("##Inf", "inf");
    ok("##-Inf", "-inf");
    ok("##NaN", "NaN");
    ok("#{##NaN ##Inf ##-Inf}", "#{-inf inf NaN}");
    err("##Foo", "Unkown symbolic value: ##Foo");
    err("##1", "Invalid token: ##Int(1)");
    err("##\"x\"", "Invalid token: ##String(\"x\")");
    err("##[1 2]", "Invalid token: ##Vec([Int(1), Int(2)])");
    err("##{:a 1}", "Invalid token: ##Map({Keyword(\"a\"): Int(1)})");
    err("###{2 1}", "Invalid token: ##Set({Int(1), Int(2)})");
}

#[test]
fn reads_namespaced_maps() {
    ok("#:ns{:a 1 :_/b 2 :c/d 3}", "{:b 2, :c/d 3, :ns/a 1}");
    ok("#:ns{x 1}", "{ns/x 1}");
    ok("#:ns{1 2}", "{1 2}");
    ok("#:ns{:1a 1}", "{:1a 1}");
    ok("{:1a 1}", "{:1a 1}");
    err("#:ns/x{:a 1}", "Namespaced map must specify a valid namespace: ns/x");
    err("#:ns[1]", "Namespaced map must specify a map");
    err("#:ns{:a}", "Map literal must contain an even number of forms");
    ok("#:@{:a 1}", "{:a 1}");
}

#[test]
fn end_of_input_is_an_error() {
    err("", "EOF while reading");
    err("   ", "EOF while reading");
    err("; only a comment", "EOF while reading");
    err("#_ 1", "EOF while reading");
    err("#", "EOF while reading character");
}

#[test]
fn reads_only_the_first_form() {
    ok("1 2 3", "1");
    ok("[1] extra", "[1]");
}

#[test]
fn tag_errors_and_unicode_classes() {
    err("#nil 1", "Reader tag must be a symbol");
    err("#true 1", "Reader tag must be a symbol");
    err("#ab 1", "No reader function for tag ab");
    err("\u{663}abc", "Invalid token: \u{663}abc");
    err("#\u{e9}t 1", "No reader function for tag \u{e9}t");
    ok("\u{a0}42", "42");
    ok("\"\\0\"", "\"\u{0}\"");
}

#[test]
fn debug_text_in_symbolic_value_errors() {
    err("##nil", "Invalid token: ##Nil");
    err("##true", "Invalid token: ##Bool(true)");
    err("##:k", "Invalid token: ##Keyword(\"k\")");
    err("##\\a", "Invalid token: ##Char('a')");
    err("##12N", "Invalid token: ##BigInt(12)");
    err("####Inf", "Invalid token: ##Float(inf)");
    err("##(1 \"q\\\"\")", "Invalid token: ##List([Int(1), String(\"q\\\"\")])");
    err("###inst \"x\"", "Invalid token: ##TaggedElement(\"inst\", String(\"x\"))");
}

#[test]
fn namespaced_map_edge_cases() {
    ok("#:ns{a/b 1 _/c 2}", "{a/b 1, c 2}");
    ok("#:ns {:a 1}", "{:ns/a 1}");
    ok("#:ns{:a 1 :a 2}", "{:ns/a 2}");
    ok("#:{:a 1} {:b 2}", "{:b 2}");
    ok("#:1{:a 1}", "{:a 1}");
    ok("#:){:a 1}", "{:a 1}");
    err("#: {:a 1}", "EOF while reading");
    err("#:)", "EOF while reading");
    err("#:ns", "EOF while reading");
    ok("#:ns{:1 2}", "{:1 2}");
}

#[test]
fn reads_floats_by_value() {
    ok("1.5", "1.5");
    ok("1.50", "1.5");
    ok("-0.25", "-0.25");
    ok("+2.", "2");
    ok("6.02e23", "602000000000000000000000");
    ok("1E-3", "0.001");
    ok("15e-1", "1.5");
    ok("08.5", "8.5");
    ok("0.0", "0");
    ok("1e400", "inf");
    ok("-1e400", "-inf");
    ok("1e-400", "0");
    err("1.5e", "Invalid number: 1.5e");
    err("1.5N", "Invalid number: 1.5N");
    err("1..5", "Invalid number: 1..5");
    err("1e99999999999999999999999", "Invalid number: 1e99999999999999999999999");
    ok("[##-Inf -1.5 ##Inf]", "[-inf -1.5 inf]");
    err("##1.5", "Invalid token: ##Float(1.5)");
    err("##1/2", "Invalid token: ##BigRational(Ratio { numer: 1, denom: 2 })");
    err("##1.5M", "Invalid token: ##BigDecimal(BigDecimal(sign=Plus, scale=1, digits=[15]))");
}

#[test]
fn reads_big_decimals() {
    ok("1.5M", "1.5M");
    ok("-2.50M", "-2.50M");
    ok("1e3M", "1000M");
    ok("09M", "9M");
    ok("0.000M", "0M");
    err("1.5MM", "Invalid number: 1.5MM");
}

#[test]
fn reads_ratios_in_lowest_terms() {
    ok("1/2", "1/2R");
    ok("2/4", "1/2R");
    ok("-6/3", "-2R");
    ok("+3/9", "1/3R");
    ok("0/5", "0R");
    ok("123456789012345678901234567890/10", "12345678901234567890123456789R");
    err("1/0", "Invalid number: 1/0");
    err("1/2/3", "Invalid number: 1/2/3");
    err("1/-2", "Invalid number: 1/-2");
}

#[test]
fn numbers_in_sets_order_by_value() {
    ok("#{2.5 1.5 10.0 -3.0}", "#{-3 1.5 2.5 10}");
    ok("#{1.50 1.5 15e-1}", "#{1.5}");
    ok("#{10M 2M 1.5M 1.50M}", "#{1.5M 1.50M 2M 10M}");
    ok("#{1/2 1/3 2/4 -1/7}", "#{-1/7R 1/3R 1/2R}");
    ok("#{##NaN 1.0 ##-Inf ##Inf}", "#{-inf 1 inf NaN}");
    ok("{3/4 :a 1/4 :b}", "{1/4R :b, 3/4R :a}");
}
