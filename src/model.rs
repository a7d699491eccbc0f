//! The mathematical model of the reader: trees of expressions, and what
//! reading a text yields, stated over sequences of characters.
use vstd::prelude::*;

verus! {

/// One expression, as a value.
pub enum Expr {
    Int(int),
    /// A decimal literal that denotes a floating-point number, as written.
    Float(Seq<char>),
    Sym(Seq<char>),
    Str(Seq<char>),
    List(Seq<Expr>),
}

/// The kinds of failure that reading can meet.
#[derive(PartialEq, Eq, Structural, Clone, Copy, Debug)]
pub enum ErrorKind {
    /// An expression was asked for where no input is left.
    UnexpectedEndOfInput,
    /// A token that starts like a number is neither an integer nor a float.
    MalformedNumber,
    /// A symbol would have no characters.
    EmptySymbol,
    /// A string literal has no closing quote.
    UnterminatedString,
    /// The input ends inside a list.
    UnclosedList,
}

/// A failure, with the number of characters left in the input where the
/// offending token starts (the whole input minus that count is its offset).
pub struct Failure {
    pub kind: ErrorKind,
    pub left: nat,
}

/// What the Unicode White_Space property holds.
pub open spec fn is_white_space(c: char) -> bool {
    ||| ('\t' <= c && c <= '\r')
    ||| c == ' '
    ||| c == '\u{85}'
    ||| c == '\u{a0}'
    ||| c == '\u{1680}'
    ||| ('\u{2000}' <= c && c <= '\u{200a}')
    ||| c == '\u{2028}'
    ||| c == '\u{2029}'
    ||| c == '\u{202f}'
    ||| c == '\u{205f}'
    ||| c == '\u{3000}'
}

/// `s` without its leading whitespace.
pub open spec fn skip_ws(s: Seq<char>) -> Seq<char>
    decreases s.len(),
{
    if s.len() > 0 && is_white_space(s[0]) {
        skip_ws(s.drop_first())
    } else {
        s
    }
}

/// Skipping whitespace leaves a suffix of the input.
pub proof fn lemma_skip_ws_suffix(s: Seq<char>)
    ensures
        skip_ws(s).len() <= s.len(),
        skip_ws(s) == s.skip(s.len() - skip_ws(s).len()),
        skip_ws(s).len() == 0 || !is_white_space(skip_ws(s)[0]),
    decreases s.len(),
{
    if s.len() > 0 && is_white_space(s[0]) {
        lemma_skip_ws_suffix(s.drop_first());
        assert(s.drop_first().skip(s.drop_first().len() - skip_ws(s).len()) =~= s.skip(
            s.len() - skip_ws(s).len(),
        ));
    } else {
        assert(s.skip(0) =~= s);
    }
}

pub open spec fn is_digit(c: char) -> bool {
    '0' <= c && c <= '9'
}

/// The characters a number token is made of.
pub open spec fn is_numeric(c: char) -> bool {
    is_digit(c) || c == '.' || c == '-'
}

/// The characters that end a symbol.
pub open spec fn ends_symbol(c: char) -> bool {
    c == ' ' || c == ')'
}

/// Where a number token ends.
pub open spec fn number_stop() -> spec_fn(char) -> bool {
    |c: char| !is_numeric(c)
}

/// Where a symbol ends.
pub open spec fn symbol_stop() -> spec_fn(char) -> bool {
    |c: char| ends_symbol(c)
}

/// Where the text of a string literal ends.
pub open spec fn quote_stop() -> spec_fn(char) -> bool {
    |c: char| c == '"'
}

/// The number of leading characters of `s` that are not `stop`.
pub open spec fn token_len(s: Seq<char>, stop: spec_fn(char) -> bool) -> nat
    decreases s.len(),
{
    if s.len() == 0 || stop(s[0]) {
        0
    } else {
        1 + token_len(s.drop_first(), stop)
    }
}

pub open spec fn all_digits(t: Seq<char>) -> bool {
    forall|i: int| 0 <= i < t.len() ==> is_digit(#[trigger] t[i])
}

/// The value of a run of decimal digits.
pub open spec fn digits_value(t: Seq<char>) -> nat
    decreases t.len(),
{
    if t.len() == 0 {
        0
    } else {
        digits_value(t.drop_last()) * 10 + (t.last() as nat - '0' as nat) as nat
    }
}

/// The integer that `t` writes: an optional `-` and one or more digits.
pub open spec fn int_literal(t: Seq<char>) -> Option<int> {
    if t.len() > 1 && t[0] == '-' && all_digits(t.drop_first()) {
        Some(-digits_value(t.drop_first()))
    } else if t.len() > 0 && all_digits(t) {
        Some(digits_value(t) as int)
    } else {
        None
    }
}

pub open spec fn fits_i32(v: int) -> bool {
    i32::MIN <= v && v <= i32::MAX
}

/// The integer that `t` writes, where it fits in 32 bits.
pub open spec fn int_value(t: Seq<char>) -> Option<int> {
    match int_literal(t) {
        Some(v) if fits_i32(v) => Some(v),
        _ => None,
    }
}

/// `t` without a leading `-`.
pub open spec fn unsigned_part(t: Seq<char>) -> Seq<char> {
    if t.len() > 0 && t[0] == '-' {
        t.drop_first()
    } else {
        t
    }
}

/// A decimal float literal: an optional `-`, then digits with at most one
/// `.` among them, and at least one digit.
pub open spec fn is_float_literal(t: Seq<char>) -> bool {
    let u = unsigned_part(t);
    &&& forall|i: int| 0 <= i < u.len() ==> is_digit(#[trigger] u[i]) || u[i] == '.'
    &&& forall|i: int, j: int|
        #![trigger u[i], u[j]]
        0 <= i < u.len() && 0 <= j < u.len() && u[i] == '.' && u[j] == '.' ==> i == j
    &&& exists|i: int| 0 <= i < u.len() && is_digit(#[trigger] u[i])
}

/// What a number token `t` stands for, if anything: an integer where it
/// writes one that fits in 32 bits, else a float where it is a float literal.
pub open spec fn number_value(t: Seq<char>) -> Option<Expr> {
    match int_value(t) {
        Some(v) => Some(Expr::Int(v)),
        None => if is_float_literal(t) {
            Some(Expr::Float(t))
        } else {
            None
        },
    }
}

pub type Step = Result<(Expr, Seq<char>), Failure>;

pub open spec fn fail<T>(kind: ErrorKind, left: nat) -> Result<T, Failure> {
    Err(Failure { kind, left })
}

/// Reads a number token off the front of `s`.
pub open spec fn read_number(s: Seq<char>) -> Step {
    let k = token_len(s, number_stop()) as int;
    match number_value(s.take(k)) {
        Some(e) => Ok((e, s.skip(k))),
        None => fail(ErrorKind::MalformedNumber, s.len()),
    }
}

/// Reads a symbol off the front of `s`.
pub open spec fn read_symbol(s: Seq<char>) -> Step {
    let k = token_len(s, symbol_stop()) as int;
    if k == 0 {
        fail(ErrorKind::EmptySymbol, s.len())
    } else {
        Ok((Expr::Sym(s.take(k)), s.skip(k)))
    }
}

/// Reads a string literal off the front of `s`, which starts with a quote.
pub open spec fn read_string(s: Seq<char>) -> Step {
    let body = s.drop_first();
    let k = token_len(body, quote_stop()) as int;
    if k == body.len() {
        fail(ErrorKind::UnterminatedString, s.len())
    } else {
        Ok((Expr::Str(body.take(k)), body.skip(k + 1)))
    }
}

/// Reads one expression off the front of `s`; the first character decides its form.
pub open spec fn read_expr(s: Seq<char>) -> Step
    decreases s.len(), 1int,
{
    if s.len() == 0 {
        fail(ErrorKind::UnexpectedEndOfInput, 0)
    } else if is_digit(s[0]) || s[0] == '-' {
        read_number(s)
    } else if s[0] == '"' {
        read_string(s)
    } else if s[0] == '(' {
        read_list(s)
    } else {
        read_symbol(s)
    }
}

/// Reads a list off the front of `s`, which starts with `(`. Where `)` is the
/// first character after the `(` and any whitespace, the list is empty.
pub open spec fn read_list(s: Seq<char>) -> Step
    recommends
        s.len() > 0 && s[0] == '(',
    decreases s.len(), 0int,
{
    if s.len() == 0 {
        fail(ErrorKind::UnexpectedEndOfInput, 0)
    } else {
        let r = skip_ws(s.drop_first());
        proof {
            lemma_skip_ws_suffix(s.drop_first());
        }
        if r.len() > 0 && r[0] == ')' {
            Ok((Expr::List(Seq::empty()), r.drop_first()))
        } else {
            match read_items(r, s.len()) {
                Ok((items, rest)) => Ok((Expr::List(items), rest)),
                Err(f) => Err(f),
            }
        }
    }
}

/// Reads the elements of a list, and its closing `)`, off the front of `r`;
/// `open` is the number of characters left at the list's `(`.
pub open spec fn read_items(r: Seq<char>, open: nat) -> Result<(Seq<Expr>, Seq<char>), Failure>
    decreases r.len(), 2int,
{
    match read_expr(r) {
        Err(f) => Err(f),
        Ok((e, rest)) => {
            let r2 = skip_ws(rest);
            if r2.len() == 0 {
                fail(ErrorKind::UnclosedList, open)
            } else if r2[0] == ')' {
                Ok((seq![e], r2.drop_first()))
            } else if r2.len() < r.len() {
                match read_items(r2, open) {
                    Ok((es, rest2)) => Ok((seq![e] + es, rest2)),
                    Err(f) => Err(f),
                }
            } else {
                // never taken: every expression that is read consumes input
                fail(ErrorKind::UnclosedList, open)
            }
        },
    }
}

/// Reads expressions off `s`, which has no leading whitespace, to its end.
pub open spec fn read_all(s: Seq<char>) -> Result<Seq<Expr>, Failure>
    decreases s.len(),
{
    if s.len() == 0 {
        Ok(Seq::empty())
    } else {
        match read_expr(s) {
            Err(f) => Err(f),
            Ok((e, rest)) => {
                let r = skip_ws(rest);
                if r.len() < s.len() {
                    match read_all(r) {
                        Ok(es) => Ok(seq![e] + es),
                        Err(f) => Err(f),
                    }
                } else {
                    // never taken: every expression that is read consumes input
                    fail(ErrorKind::UnexpectedEndOfInput, 0)
                }
            },
        }
    }
}

/// `acc` put in front of the items that `r` read, if it read any.
pub open spec fn prepend_items(acc: Seq<Expr>, r: Result<(Seq<Expr>, Seq<char>), Failure>) -> Result<
    (Seq<Expr>, Seq<char>),
    Failure,
> {
    match r {
        Ok((es, rest)) => Ok((acc + es, rest)),
        Err(f) => Err(f),
    }
}

/// `acc` put in front of the expressions that `r` read, if it read any.
pub open spec fn prepend_all(acc: Seq<Expr>, r: Result<Seq<Expr>, Failure>) -> Result<
    Seq<Expr>,
    Failure,
> {
    match r {
        Ok(es) => Ok(acc + es),
        Err(f) => Err(f),
    }
}

/// What reading the whole text `s` yields.
pub open spec fn read_source(s: Seq<char>) -> Result<Seq<Expr>, Failure> {
    read_all(skip_ws(s))
}

} // verus!
