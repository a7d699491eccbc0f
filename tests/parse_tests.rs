use sexpr::parse::{list_parse, num_parse, parse, s_parse, str_parse, sym_parse, SExpr};

/// An expected expression, with floats as numbers.
#[derive(Debug)]
enum Expected<'a> {
    SInt(i32),
    SFloat(f32),
    SSym(&'a str),
    SStr(&'a str),
    SList(Vec<Expected<'a>>),
}

use Expected::{SFloat, SInt, SList, SStr, SSym};

impl PartialEq<Expected<'_>> for SExpr {
    fn eq(&self, other: &Expected<'_>) -> bool {
        match (self, other) {
            (SExpr::SInt(a), SInt(b)) => a == b,
            (SExpr::SFloat(a), SFloat(b)) => a.parse::<f32>() == Ok(*b),
            (SExpr::SSym(a), SSym(b)) => a == b,
            (SExpr::SStr(a), SStr(b)) => a == b,
            (SExpr::SList(a), SList(b)) => a == b,
            _ => false,
        }
    }
}

/// An expected result of reading one expression.
#[derive(Debug)]
struct ParseResult<'a> {
    parsed: Expected<'a>,
    rest: &'a str,
}

impl PartialEq<ParseResult<'_>> for sexpr::parse::ParseResult<'_> {
    fn eq(&self, other: &ParseResult<'_>) -> bool {
        self.parsed == other.parsed && self.rest == other.rest
    }
}

/*---------------- parse tests ----------------*/

#[test]
fn parses_int() {
    assert_eq!(parse("3").unwrap(), vec![SInt(3)]);
    assert_eq!(parse("193755").unwrap(), vec![SInt(193755)]);
    assert_eq!(parse("-1728").unwrap(), vec![SInt(-1728)]);
    assert_eq!(parse("1 5 -2").unwrap(), vec![SInt(1), SInt(5), SInt(-2)]);
}

#[test]
fn parses_float() {
    assert_eq!(parse("0.5").unwrap(), vec![SFloat(0.5)]);
    assert_eq!(parse("-11.28").unwrap(), vec![SFloat(-11.28)]);
    assert_eq!(parse("34587.23424").unwrap(), vec![SFloat(34587.23424)]);
    assert_eq!(parse("0.5 2.1 8.32").unwrap(), vec![SFloat(0.5), SFloat(2.1), SFloat(8.32)]);
}

#[test]
fn parses_symbol() {
    assert_eq!(parse("my-symbol").unwrap(), vec![SSym("my-symbol")]);
    assert_eq!(parse("x").unwrap(), vec![SSym("x")]);
    assert_eq!(parse("NAME").unwrap(), vec![SSym("NAME")]);
    assert_eq!(parse("e^2*x/y").unwrap(), vec![SSym("e^2*x/y")]);
    assert_eq!(parse("x y z").unwrap(), vec![SSym("x"), SSym("y"), SSym("z")]);
}

#[test]
fn parses_str() {
    assert_eq!(parse("\"test\"").unwrap(), vec![SStr("test")]);
    assert_eq!(parse("\"this is a string\"").unwrap(), vec![SStr("this is a string")]);
    assert_eq!(parse("\"23847\"").unwrap(), vec![SStr("23847")]);
    assert_eq!(parse("\"(parens)\"").unwrap(), vec![SStr("(parens)")]);
    assert_eq!(parse("\"one\" \"two\"").unwrap(), vec![SStr("one"), SStr("two")]);
}

#[test]
fn parses_list() {
    assert_eq!(
        parse("(1 2 3)").unwrap(),
        vec![SList(vec![SInt(1), SInt(2), SInt(3)])]);
    assert_eq!(
        parse("(name)").unwrap(),
        vec![SList(vec![SSym("name")])]);
    assert_eq!(
        parse("(f \"arg\" 2 5)").unwrap(),
        vec![SList(vec![SSym("f"), SStr("arg"), SInt(2), SInt(5)])]);
    assert_eq!(
        parse("(a b) (c d)").unwrap(),
        vec![SList(vec![SSym("a"), SSym("b")]), SList(vec![SSym("c"), SSym("d")])]);
}

#[test]
fn parses_more_complex_exprs() {
    assert_eq!(
        parse(" (define (f x y) \
                    (* x (+ 2 y))) \
                (f -3 2.7)").unwrap(),
        vec![
            SList(vec![SSym("define"),
                SList(vec![SSym("f"), SSym("x"), SSym("y")]),
                SList(vec![SSym("*"), SSym("x"),
                    SList(vec![SSym("+"), SInt(2), SSym("y")])])]),
            SList(vec![SSym("f"), SInt(-3), SFloat(2.7)])]);

    // ignores whitespace
    assert_eq!(
        parse("    (  f   105   xyz ) ").unwrap(),
        vec![SList(vec![SSym("f"), SInt(105), SSym("xyz")])]);
    assert_eq!(
        parse("     ").unwrap(),
        Vec::<Expected>::new());

    assert_eq!(
        parse("(f \"test string\" 100)").unwrap(),
        vec![SList(vec![SSym("f"), SStr("test string"), SInt(100)])]);
}

/*---------------- tests for parsing helpers ----------------*/

#[test]
fn test_s_parse() {
    // s_parse can parse an expression of any type
    assert_eq!(
        s_parse("100.05").unwrap(),
        ParseResult { parsed: SFloat(100.05), rest: "" });
    assert_eq!(
        s_parse("75").unwrap(),
        ParseResult { parsed: SInt(75), rest: "" });
    assert_eq!(
        s_parse("symbol").unwrap(),
        ParseResult { parsed: SSym("symbol"), rest: "" });
    assert_eq!(
        s_parse("\"string\"").unwrap(),
        ParseResult { parsed: SStr("string"), rest: "" });
    assert_eq!(
        s_parse("(list of els)").unwrap(),
        ParseResult {
            parsed: SList(vec![SSym("list"), SSym("of"), SSym("els")]),
            rest: "" });
}

#[test]
fn test_num_parse() {
    // parsing numeric expressions
    assert_eq!(
        num_parse("-17.182 x y z)").unwrap(),
        ParseResult { parsed: SFloat(-17.182), rest: " x y z)" });
    assert_eq!(
        num_parse("6)").unwrap(),
        ParseResult { parsed: SInt(6), rest: ")" });
    assert_eq!(
        num_parse("100").unwrap(),
        ParseResult { parsed: SInt(100), rest: "" });
}

#[test]
fn test_sym_parse() {
    // parsing symbols
    assert_eq!(
        sym_parse("symbol-name/here next)").unwrap(),
        ParseResult { parsed: SSym("symbol-name/here"), rest: " next)" });
    assert_eq!(
        sym_parse("name-with-nums1283)").unwrap(),
        ParseResult { parsed: SSym("name-with-nums1283"), rest: ")" });
    assert_eq!(
        sym_parse("terminal").unwrap(),
        ParseResult { parsed: SSym("terminal"), rest: "" });
}

#[test]
fn test_str_parse() {
    // parsing strings
    assert_eq!(
        str_parse("\"string value inside!\"").unwrap(),
        ParseResult { parsed: SStr("string value inside!"), rest: "" });
    assert_eq!(
        str_parse("\"first\" next-sym)").unwrap(),
        ParseResult { parsed: SStr("first"), rest: " next-sym)" });
    assert_eq!(
        str_parse("\"\" 1 5").unwrap(),
        ParseResult { parsed: SStr(""), rest: " 1 5" });
}

#[test]
fn test_list_parse() {
    // parsing list expressions
    assert_eq!(
        list_parse("(a 1 \"c\")").unwrap(),
        ParseResult { parsed: SList(vec![SSym("a"), SInt(1), SStr("c")]), rest: "" });
    assert_eq!(
        list_parse("(name (list within list))").unwrap(),
        ParseResult {
            parsed: SList(vec![SSym("name"), SList(vec![SSym("list"), SSym("within"), SSym("list")])]),
            rest: "" });
    assert_eq!(
        list_parse("( spacing     does not    matter  )").unwrap(),
        ParseResult {
            parsed: SList(vec![SSym("spacing"), SSym("does"), SSym("not"), SSym("matter")]),
            rest: "" });
}
