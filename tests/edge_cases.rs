use sexpr::model::ErrorKind;
use sexpr::parse::{
    eat_whitespace, list_parse, num_parse, parse, s_parse, str_parse, sym_parse, ParseError, SExpr,
};
use sexpr::scan::read_until;
use sexpr::whitespace::Whitespace;

fn integer(v: i32) -> SExpr {
    SExpr::SInt(v)
}

fn float(t: &str) -> SExpr {
    SExpr::SFloat(t.to_string())
}

fn sym(t: &str) -> SExpr {
    SExpr::SSym(t.to_string())
}

fn string(t: &str) -> SExpr {
    SExpr::SStr(t.to_string())
}

fn list(items: Vec<SExpr>) -> SExpr {
    SExpr::SList(items)
}

fn err(kind: ErrorKind, offset: usize) -> ParseError {
    ParseError { kind, offset }
}

fn float_value(e: &SExpr) -> f32 {
    match e {
        SExpr::SFloat(t) => t.parse::<f32>().unwrap(),
        _ => panic!("not a float: {:?}", e),
    }
}

#[test]
fn scenario_single_integer() {
    assert_eq!(parse("42"), Ok(vec![integer(42)]));
}

#[test]
fn scenario_two_floats() {
    let v = parse("-3.5 2.7").unwrap();
    assert_eq!(v, vec![float("-3.5"), float("2.7")]);
    assert_eq!(float_value(&v[0]), -3.5);
    assert_eq!(float_value(&v[1]), 2.7);
}

#[test]
fn scenario_list_with_string() {
    assert_eq!(
        parse("(f \"arg\" 2 5)"),
        Ok(vec![list(vec![sym("f"), string("arg"), integer(2), integer(5)])])
    );
}

#[test]
fn scenario_spacing_is_immaterial() {
    assert_eq!(
        parse("   (  f   105   xyz ) "),
        Ok(vec![list(vec![sym("f"), integer(105), sym("xyz")])])
    );
}

#[test]
fn scenario_blank_text_holds_nothing() {
    assert_eq!(parse("     "), Ok(vec![]));
    assert_eq!(parse(""), Ok(vec![]));
}

#[test]
fn scenario_nested_list() {
    assert_eq!(
        parse("(a (b c))"),
        Ok(vec![list(vec![sym("a"), list(vec![sym("b"), sym("c")])])])
    );
}

#[test]
fn scenario_missing_close_paren() {
    assert_eq!(parse("(1 2"), Err(err(ErrorKind::UnclosedList, 0)));
}

#[test]
fn scenario_unterminated_string() {
    assert_eq!(parse("\"unterminated"), Err(err(ErrorKind::UnterminatedString, 0)));
}

#[test]
fn empty_list_is_read() {
    assert_eq!(parse("()"), Ok(vec![list(vec![])]));
    assert_eq!(parse("( \t)"), Ok(vec![list(vec![])]));
    assert_eq!(parse("(a ())"), Ok(vec![list(vec![sym("a"), list(vec![])])]));
}

#[test]
fn stray_close_paren_is_an_empty_symbol() {
    assert_eq!(parse(")"), Err(err(ErrorKind::EmptySymbol, 0)));
    assert_eq!(parse("(a ))"), Err(err(ErrorKind::EmptySymbol, 4)));
    assert_eq!(sym_parse(") x").unwrap_err(), err(ErrorKind::EmptySymbol, 0));
}

#[test]
fn open_paren_then_blank_is_end_of_input() {
    assert_eq!(parse("(   "), Err(err(ErrorKind::UnexpectedEndOfInput, 4)));
    assert_eq!(parse("("), Err(err(ErrorKind::UnexpectedEndOfInput, 1)));
    assert_eq!(s_parse("").unwrap_err(), err(ErrorKind::UnexpectedEndOfInput, 0));
}

#[test]
fn malformed_numbers_are_refused_whole() {
    assert_eq!(parse("1.2.3"), Err(err(ErrorKind::MalformedNumber, 0)));
    assert_eq!(parse("(x 1-2)"), Err(err(ErrorKind::MalformedNumber, 3)));
    assert_eq!(parse("-"), Err(err(ErrorKind::MalformedNumber, 0)));
    assert_eq!(parse("--5"), Err(err(ErrorKind::MalformedNumber, 0)));
    assert_eq!(num_parse(".").unwrap_err(), err(ErrorKind::MalformedNumber, 0));
    assert_eq!(num_parse("-foo").unwrap_err(), err(ErrorKind::MalformedNumber, 0));
}

#[test]
fn integer_bounds() {
    assert_eq!(parse("2147483647"), Ok(vec![integer(i32::MAX)]));
    assert_eq!(parse("-2147483648"), Ok(vec![integer(i32::MIN)]));
    assert_eq!(parse("-0 007"), Ok(vec![integer(0), integer(7)]));
    // past the 32-bit range a digit run is still a float literal
    assert_eq!(parse("2147483648"), Ok(vec![float("2147483648")]));
    assert_eq!(parse("-99999999999"), Ok(vec![float("-99999999999")]));
}

#[test]
fn float_literal_forms() {
    let v = parse("5. -.5 0.25").unwrap();
    assert_eq!(v, vec![float("5."), float("-.5"), float("0.25")]);
    assert_eq!(float_value(&v[0]), 5.0);
    assert_eq!(float_value(&v[1]), -0.5);
    assert_eq!(float_value(&v[2]), 0.25);
    // a leading `.` starts no number
    assert_eq!(parse(".5"), Ok(vec![sym(".5")]));
}

#[test]
fn number_token_stops_at_other_characters() {
    assert_eq!(parse("(5x)"), Ok(vec![list(vec![integer(5), sym("x")])]));
    let r = num_parse("12ab").unwrap();
    assert_eq!(r.parsed, integer(12));
    assert_eq!(r.rest, "ab");
}

#[test]
fn unicode_whitespace_separates_tokens() {
    assert_eq!(parse("\u{a0}42\u{3000}7\u{2028}"), Ok(vec![integer(42), integer(7)]));
    assert_eq!(parse("(\u{85}a )"), Ok(vec![list(vec![sym("a")])]));
}

#[test]
fn symbols_stop_only_at_space_or_close_paren() {
    assert_eq!(parse("a\tb"), Ok(vec![sym("a\tb")]));
    assert_eq!(parse("a(b c"), Ok(vec![sym("a(b"), sym("c")]));
}

#[test]
fn single_character_symbol_takes_the_whole_input() {
    let r = sym_parse("x").unwrap();
    assert_eq!(r.parsed, sym("x"));
    assert_eq!(r.rest, "");
    assert_eq!(parse("x"), Ok(vec![sym("x")]));
}

#[test]
fn offsets_count_characters() {
    assert_eq!(parse("é \"x"), Err(err(ErrorKind::UnterminatedString, 2)));
    let r = str_parse("\"héllo\" x").unwrap();
    assert_eq!(r.parsed, string("héllo"));
    assert_eq!(r.rest, " x");
}

#[test]
fn strings_keep_their_text() {
    assert_eq!(parse("\"a  (b) 1\""), Ok(vec![string("a  (b) 1")]));
    assert_eq!(parse("\"\""), Ok(vec![string("")]));
}

#[test]
fn list_parse_leaves_the_rest() {
    let r = list_parse("(a b) c").unwrap();
    assert_eq!(r.parsed, list(vec![sym("a"), sym("b")]));
    assert_eq!(r.rest, " c");
}

#[test]
fn whitespace_runs_collapse_to_the_same_tree() {
    let spread = parse("  ( a \t\n  1   \"s  t\" (  b ) )\r\n (c)").unwrap();
    let collapsed = parse(" ( a 1 \"s  t\" ( b ) ) (c)").unwrap();
    assert_eq!(spread, collapsed);
    assert_eq!(
        spread,
        vec![
            list(vec![sym("a"), integer(1), string("s  t"), list(vec![sym("b")])]),
            list(vec![sym("c")]),
        ]
    );
}

#[test]
fn reading_twice_gives_equal_trees() {
    let text = "(define (sq x) (* x x)) \"s\" -1.5 oops)";
    assert_eq!(parse(text), parse(text));
    let text = "(f 1 2.5 \"x\")";
    assert_eq!(parse(text), parse(text));
}

#[test]
fn read_until_splits_at_the_first_stop() {
    assert_eq!(read_until("abc def", |c| c == ' '), ("abc", " def"));
    assert_eq!(read_until("x", |c| c == ' '), ("x", ""));
    assert_eq!(read_until("xy", |c| c == ' '), ("xy", ""));
    assert_eq!(read_until("", |c| c == ' '), ("", ""));
    assert_eq!(read_until(" a", |c| c == ' '), ("", " a"));
    assert_eq!(read_until("ab)", |c| c == ')'), ("ab", ")"));
}

#[test]
fn whitespace_class_is_unicode_white_space() {
    let ws = Whitespace::new();
    assert!(ws.contains(' '));
    assert!(ws.contains('\t'));
    assert!(ws.contains('\u{2028}'));
    assert!(ws.contains('\u{3000}'));
    assert!(!ws.contains('x'));
    assert!(!ws.contains('\u{200b}'));
    assert_eq!(eat_whitespace(&ws, " \t\n x "), "x ");
    assert_eq!(eat_whitespace(&ws, "   "), "");
    assert_eq!(eat_whitespace(&ws, "y"), "y");
}
