//! The reader: expressions as values of the library, and the functions that
//! read them off text.
use vstd::prelude::*;
use crate::model::{
    ErrorKind, Expr, Failure, Step, is_numeric, ends_symbol, number_stop, symbol_stop, quote_stop,
    read_number, read_symbol, read_string, read_expr, read_list, read_items, read_all, read_source,
    skip_ws, prepend_items, prepend_all
};
use crate::number::{int_value_of, is_float_text};
use crate::scan::{chars_of, lemma_token_len, scan_until, text_of};
use crate::whitespace::Whitespace;

verus! {

broadcast use vstd::std_specs::vec::group_vec_axioms, vstd::seq::group_seq_axioms;

/// One expression read off the text.
#[derive(Debug, PartialEq)]
pub enum SExpr {
    SInt(i32),
    /// A float literal, kept as written (digits, at most one `.`, an
    /// optional leading `-`); `str::parse::<f32>` turns it into a number.
    SFloat(String),
    SSym(String),
    SStr(String),
    SList(Vec<SExpr>),
}

impl SExpr {
    /// The value this expression stands for.
    pub open spec fn model(&self) -> Expr
        decreases self,
    {
        match self {
            SExpr::SInt(v) => Expr::Int(*v as int),
            SExpr::SFloat(t) => Expr::Float(t@),
            SExpr::SSym(t) => Expr::Sym(t@),
            SExpr::SStr(t) => Expr::Str(t@),
            SExpr::SList(items) => Expr::List(models(items@)),
        }
    }
}

/// The values of `items`, in order.
pub open spec fn models(items: Seq<SExpr>) -> Seq<Expr>
    decreases items,
{
    if items.len() == 0 {
        Seq::empty()
    } else {
        models(items.drop_last()).push(items.last().model())
    }
}

/// A failure to read, with its place as an offset in characters from the
/// front of the text that was given: the start of the offending token, the
/// `(` of a list left open, or the end of the text where it ran out.
#[derive(Debug, PartialEq, Eq, Clone, Copy)]
pub struct ParseError {
    pub kind: ErrorKind,
    pub offset: usize,
}

impl ParseError {
    /// The failure this error reports, in a text of `len` characters.
    pub open spec fn failure(&self, len: nat) -> Failure {
        Failure { kind: self.kind, left: (len - self.offset) as nat }
    }
}

/// One expression read off the front of a text, and the rest of that text.
#[derive(Debug, PartialEq)]
pub struct ParseResult<'a> {
    pub parsed: SExpr,
    pub rest: &'a str,
}

/// `r`, read at a position of `chars`, is what `step` says: the expression
/// and the position where the rest starts, or the failure.
pub open spec fn step_matches(r: Result<(SExpr, usize), ParseError>, chars: Seq<char>, step: Step) -> bool {
    match r {
        Ok((e, p)) => p <= chars.len() && step == Ok::<_, Failure>((e.model(), chars.skip(p as int))),
        Err(err) => err.offset <= chars.len() && step == Err::<(Expr, Seq<char>), _>(err.failure(chars.len())),
    }
}

/// `r`, read off the text `s`, is what `step` says.
pub open spec fn result_matches(r: Result<ParseResult, ParseError>, s: Seq<char>, step: Step) -> bool {
    match r {
        Ok(pr) => step == Ok::<_, Failure>((pr.parsed.model(), pr.rest@)),
        Err(err) => err.offset <= s.len() && step == Err::<(Expr, Seq<char>), _>(err.failure(s.len())),
    }
}

/// `r`, read off the whole text `s`, is what `expected` says.
pub open spec fn all_matches(
    r: Result<Vec<SExpr>, ParseError>,
    s: Seq<char>,
    expected: Result<Seq<Expr>, Failure>,
) -> bool {
    match r {
        Ok(v) => expected == Ok::<_, Failure>(models(v@)),
        Err(err) => err.offset <= s.len() && expected == Err::<Seq<Expr>, _>(err.failure(s.len())),
    }
}

proof fn lemma_models_push(items: Seq<SExpr>, e: SExpr)
    ensures
        models(items.push(e)) == models(items).push(e.model()),
{
    assert(items.push(e).drop_last() =~= items);
}

/// Whether `c` ends a number token.
fn ends_number(c: char) -> (b: bool)
    ensures
        b == !is_numeric(c),
{
    !(('0' <= c && c <= '9') || c == '.' || c == '-')
}

/// Whether `c` ends a symbol.
fn is_symbol_end(c: char) -> (b: bool)
    ensures
        b == ends_symbol(c),
{
    c == ' ' || c == ')'
}

/// Whether `c` is a double quote.
fn is_quote(c: char) -> (b: bool)
    ensures
        b == (c == '"'),
{
    c == '"'
}

/// Reads a number token at `pos`.
pub fn number_at(chars: &Vec<char>, pos: usize) -> (r: Result<(SExpr, usize), ParseError>)
    requires
        pos <= chars.len(),
    ensures
        step_matches(r, chars@, read_number(chars@.skip(pos as int))),
        r matches Ok((_, q)) ==> pos < q,
{
    let ghost s = chars@.skip(pos as int);
    let end = scan_until(
        chars,
        pos,
        ends_number,
    );
    proof {
        lemma_token_len(s, number_stop(), end - pos);
    }
    assert(s.take(end - pos) =~= chars@.subrange(pos as int, end as int));
    assert(s.skip(end - pos) =~= chars@.skip(end as int));
    match int_value_of(chars, pos, end) {
        Some(v) => Ok((SExpr::SInt(v), end)),
        None => {
            if is_float_text(chars, pos, end) {
                Ok((SExpr::SFloat(text_of(chars, pos, end)), end))
            } else {
                Err(ParseError { kind: ErrorKind::MalformedNumber, offset: pos })
            }
        },
    }
}

/// Reads a symbol at `pos`.
pub fn symbol_at(chars: &Vec<char>, pos: usize) -> (r: Result<(SExpr, usize), ParseError>)
    requires
        pos <= chars.len(),
    ensures
        step_matches(r, chars@, read_symbol(chars@.skip(pos as int))),
        r matches Ok((_, q)) ==> pos < q,
{
    let ghost s = chars@.skip(pos as int);
    let end = scan_until(
        chars,
        pos,
        is_symbol_end,
    );
    proof {
        lemma_token_len(s, symbol_stop(), end - pos);
    }
    if end == pos {
        Err(ParseError { kind: ErrorKind::EmptySymbol, offset: pos })
    } else {
        assert(s.take(end - pos) =~= chars@.subrange(pos as int, end as int));
        assert(s.skip(end - pos) =~= chars@.skip(end as int));
        Ok((SExpr::SSym(text_of(chars, pos, end)), end))
    }
}

/// Reads a string literal at `pos`, where a quote stands.
pub fn string_at(chars: &Vec<char>, pos: usize) -> (r: Result<(SExpr, usize), ParseError>)
    requires
        pos < chars.len(),
        chars@[pos as int] == '"',
    ensures
        step_matches(r, chars@, read_string(chars@.skip(pos as int))),
        r matches Ok((_, q)) ==> pos < q,
{
    let ghost s = chars@.skip(pos as int);
    let ghost body = s.drop_first();
    assert(body =~= chars@.skip(pos + 1));
    let end = scan_until(
        chars,
        pos + 1,
        is_quote,
    );
    proof {
        lemma_token_len(body, quote_stop(), end - (pos + 1));
    }
    if end == chars.len() {
        Err(ParseError { kind: ErrorKind::UnterminatedString, offset: pos })
    } else {
        assert(body.take(end - (pos + 1)) =~= chars@.subrange(pos + 1, end as int));
        assert(body.skip(end - (pos + 1) + 1) =~= chars@.skip(end + 1));
        Ok((SExpr::SStr(text_of(chars, pos + 1, end)), end + 1))
    }
}

/// Reads one expression at `pos`; the character there decides its form.
pub fn expr_at(ws: &Whitespace, chars: &Vec<char>, pos: usize) -> (r: Result<(SExpr, usize), ParseError>)
    requires
        ws.wf(),
        pos <= chars.len(),
    ensures
        step_matches(r, chars@, read_expr(chars@.skip(pos as int))),
        r matches Ok((_, q)) ==> pos < q,
    decreases chars.len() - pos, 1nat,
{
    if pos == chars.len() {
        return Err(ParseError { kind: ErrorKind::UnexpectedEndOfInput, offset: pos });
    }
    let c = chars[pos];
    if ('0' <= c && c <= '9') || c == '-' {
        number_at(chars, pos)
    } else if c == '"' {
        string_at(chars, pos)
    } else if c == '(' {
        list_at(ws, chars, pos)
    } else {
        symbol_at(chars, pos)
    }
}

/// Reads a list at `pos`, where `(` stands.
pub fn list_at(ws: &Whitespace, chars: &Vec<char>, pos: usize) -> (r: Result<(SExpr, usize), ParseError>)
    requires
        ws.wf(),
        pos < chars.len(),
        chars@[pos as int] == '(',
    ensures
        step_matches(r, chars@, read_list(chars@.skip(pos as int))),
        r matches Ok((_, q)) ==> pos < q,
    decreases chars.len() - pos, 0nat,
{
    let ghost s = chars@.skip(pos as int);
    let ghost open = s.len();
    assert(s.drop_first() =~= chars@.skip(pos + 1));
    let first = ws.skip(chars, pos + 1);
    if first < chars.len() && chars[first] == ')' {
        assert(chars@.skip(first as int).drop_first() =~= chars@.skip(first + 1));
        assert(models(Seq::empty()) == Seq::<Expr>::empty());
        return Ok((SExpr::SList(Vec::new()), first + 1));
    }
    let ghost whole = read_list(s);
    assert(whole == match read_items(chars@.skip(first as int), open) {
        Ok((es, rest)) => Ok::<_, Failure>((Expr::List(es), rest)),
        Err(f) => Err(f),
    });
    let mut items: Vec<SExpr> = Vec::new();
    let mut p = first;
    assert(prepend_items(models(items@), read_items(chars@.skip(p as int), open)) =~= read_items(
        chars@.skip(first as int),
        open,
    )) by {
        match read_items(chars@.skip(p as int), open) {
            Ok((es, rest)) => {
                assert(Seq::<Expr>::empty() + es =~= es);
            },
            Err(_) => {},
        }
    }
    loop
        invariant
            ws.wf(),
            pos < p <= chars.len(),
            open == chars.len() - pos,
            pos < first <= chars.len(),
            whole == read_list(chars@.skip(pos as int)),
            whole == match read_items(chars@.skip(first as int), open) {
                Ok((es, rest)) => Ok::<_, Failure>((Expr::List(es), rest)),
                Err(f) => Err(f),
            },
            read_items(chars@.skip(first as int), open) == prepend_items(
                models(items@),
                read_items(chars@.skip(p as int), open),
            ),
        decreases chars.len() - p,
    {
        let (e, q) = match expr_at(ws, chars, p) {
            Ok(x) => x,
            Err(err) => {
                return Err(err);
            },
        };
        let ghost acc = models(items@);
        proof {
            lemma_models_push(items@, e);
        }
        items.push(e);
        let next = ws.skip(chars, q);
        if next == chars.len() {
            return Err(ParseError { kind: ErrorKind::UnclosedList, offset: pos });
        }
        if chars[next] == ')' {
            assert(chars@.skip(next as int).drop_first() =~= chars@.skip(next + 1));
            assert(acc + seq![e.model()] =~= models(items@));
            return Ok((SExpr::SList(items), next + 1));
        }
        proof {
            match read_items(chars@.skip(next as int), open) {
                Ok((es, rest)) => {
                    assert(acc + (seq![e.model()] + es) =~= models(items@) + es);
                },
                Err(_) => {},
            }
        }
        p = next;
    }
}

/// Reads expressions from `chars` to its end.
pub fn parse_chars(ws: &Whitespace, chars: &Vec<char>) -> (r: Result<Vec<SExpr>, ParseError>)
    requires
        ws.wf(),
    ensures
        all_matches(r, chars@, read_source(chars@)),
{
    assert(chars@.skip(0) =~= chars@);
    let mut p = ws.skip(chars, 0);
    let mut out: Vec<SExpr> = Vec::new();
    assert(prepend_all(models(out@), read_all(chars@.skip(p as int))) =~= read_all(
        chars@.skip(p as int),
    )) by {
        match read_all(chars@.skip(p as int)) {
            Ok(es) => {
                assert(Seq::<Expr>::empty() + es =~= es);
            },
            Err(_) => {},
        }
    }
    while p < chars.len()
        invariant
            ws.wf(),
            p <= chars.len(),
            read_source(chars@) == prepend_all(models(out@), read_all(chars@.skip(p as int))),
        decreases chars.len() - p,
    {
        let (e, q) = match expr_at(ws, chars, p) {
            Ok(x) => x,
            Err(err) => {
                return Err(err);
            },
        };
        let ghost acc = models(out@);
        proof {
            lemma_models_push(out@, e);
        }
        out.push(e);
        let next = ws.skip(chars, q);
        proof {
            match read_all(chars@.skip(next as int)) {
                Ok(es) => {
                    assert(acc + (seq![e.model()] + es) =~= models(out@) + es);
                },
                Err(_) => {},
            }
        }
        p = next;
    }
    assert(models(out@) + Seq::<Expr>::empty() =~= models(out@));
    Ok(out)
}

/// The result at a position of `s`, with the rest of `s` as a slice.
fn with_rest<'a>(s: &'a str, r: Result<(SExpr, usize), ParseError>, Ghost(step): Ghost<Step>) -> (out:
    Result<ParseResult<'a>, ParseError>)
    requires
        step_matches(r, s@, step),
    ensures
        result_matches(out, s@, step),
{
    match r {
        Ok((parsed, q)) => {
            let n = s.unicode_len();
            let rest = s.substring_char(q, n);
            assert(rest@ =~= s@.skip(q as int));
            Ok(ParseResult { parsed, rest })
        },
        Err(err) => Err(err),
    }
}

/// Reads a number token off the front of `s`: the longest run of digits,
/// `.` and `-`, taken as an integer where it writes one that fits in 32
/// bits, else as a float literal, else refused as `MalformedNumber`.
pub fn num_parse(s: &str) -> (r: Result<ParseResult, ParseError>)
    ensures
        result_matches(r, s@, read_number(s@)),
{
    let chars = chars_of(s);
    assert(chars@.skip(0) =~= s@);
    with_rest(s, number_at(&chars, 0), Ghost(read_number(s@)))
}

/// Reads a symbol off the front of `s`: everything up to the first space or
/// `)`, which must not be nothing.
pub fn sym_parse(s: &str) -> (r: Result<ParseResult, ParseError>)
    ensures
        result_matches(r, s@, read_symbol(s@)),
{
    let chars = chars_of(s);
    assert(chars@.skip(0) =~= s@);
    with_rest(s, symbol_at(&chars, 0), Ghost(read_symbol(s@)))
}

/// Reads a string literal off the front of `s`, which starts with a double
/// quote: the text up to the next double quote, which is consumed too.
pub fn str_parse(s: &str) -> (r: Result<ParseResult, ParseError>)
    requires
        s@.len() > 0,
        s@[0] == '"',
    ensures
        result_matches(r, s@, read_string(s@)),
{
    let chars = chars_of(s);
    assert(chars@.skip(0) =~= s@);
    with_rest(s, string_at(&chars, 0), Ghost(read_string(s@)))
}

/// Reads one expression off the front of `s`, whitespace being told by `ws`.
pub fn s_parse_with<'a>(ws: &Whitespace, s: &'a str) -> (r: Result<ParseResult<'a>, ParseError>)
    requires
        ws.wf(),
    ensures
        result_matches(r, s@, read_expr(s@)),
{
    let chars = chars_of(s);
    assert(chars@.skip(0) =~= s@);
    with_rest(s, expr_at(ws, &chars, 0), Ghost(read_expr(s@)))
}

/// Reads a list off the front of `s`, which starts with `(`, whitespace
/// being told by `ws`.
pub fn list_parse_with<'a>(ws: &Whitespace, s: &'a str) -> (r: Result<ParseResult<'a>, ParseError>)
    requires
        ws.wf(),
        s@.len() > 0,
        s@[0] == '(',
    ensures
        result_matches(r, s@, read_list(s@)),
{
    let chars = chars_of(s);
    assert(chars@.skip(0) =~= s@);
    with_rest(s, list_at(ws, &chars, 0), Ghost(read_list(s@)))
}

/// Reads every expression of the text `s`, in order, whitespace being told
/// by `ws`.
pub fn parse_with(ws: &Whitespace, s: &str) -> (r: Result<Vec<SExpr>, ParseError>)
    requires
        ws.wf(),
    ensures
        all_matches(r, s@, read_source(s@)),
{
    let chars = chars_of(s);
    parse_chars(ws, &chars)
}

/// Reads one expression off the front of `s`: a number where it starts with a
/// digit or `-`, a string at `"`, a list at `(`, else a symbol.
pub fn s_parse(s: &str) -> (r: Result<ParseResult, ParseError>)
    ensures
        result_matches(r, s@, read_expr(s@)),
{
    let ws = Whitespace::new();
    s_parse_with(&ws, s)
}

/// Reads a list off the front of `s`, which starts with `(`.
pub fn list_parse(s: &str) -> (r: Result<ParseResult, ParseError>)
    requires
        s@.len() > 0,
        s@[0] == '(',
    ensures
        result_matches(r, s@, read_list(s@)),
{
    let ws = Whitespace::new();
    list_parse_with(&ws, s)
}

/// Reads every expression of the text `s`, in order: the first failure
/// ends the reading, and an empty or blank text holds none.
pub fn parse(s: &str) -> (r: Result<Vec<SExpr>, ParseError>)
    ensures
        all_matches(r, s@, read_source(s@)),
{
    let ws = Whitespace::new();
    parse_with(&ws, s)
}

/// `s` without its leading whitespace, as `ws` tells it.
pub fn eat_whitespace<'a>(ws: &Whitespace, s: &'a str) -> (r: &'a str)
    requires
        ws.wf(),
    ensures
        r@ == skip_ws(s@),
{
    let chars = chars_of(s);
    assert(chars@.skip(0) =~= s@);
    let p = ws.skip(&chars, 0);
    let rest = s.substring_char(p, chars.len());
    assert(rest@ =~= chars@.skip(p as int));
    rest
}

} // verus!
