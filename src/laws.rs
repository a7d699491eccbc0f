//! Laws of reading, proved over the model.
use vstd::prelude::*;
use crate::model::{
    ErrorKind, Expr, Failure, all_digits, ends_symbol, int_value, is_digit, is_float_literal,
    is_numeric, number_stop, number_value, read_all, read_expr, read_source,
    read_symbol, skip_ws, symbol_stop
};
use crate::parse::{ParseError, SExpr, all_matches, models};
use crate::scan::lemma_token_len;

verus! {

/// A text made of numeric characters only, starting like a number, is read
/// as one number token that spans all of it.
proof fn lemma_whole_number_token(t: Seq<char>)
    requires
        t.len() > 0,
        is_digit(t[0]) || t[0] == '-',
        forall|i: int| 0 <= i < t.len() ==> is_numeric(#[trigger] t[i]),
    ensures
        read_expr(t) == match number_value(t) {
            Some(e) => Ok((e, Seq::<char>::empty())),
            None => Err::<(Expr, Seq<char>), _>(Failure { kind: ErrorKind::MalformedNumber, left: t.len() }),
        },
        skip_ws(t) == t,
{
    lemma_token_len(t, number_stop(), t.len() as int);
    assert(t.take(t.len() as int) =~= t);
    assert(t.skip(t.len() as int) =~= Seq::<char>::empty());
}

/// What reading yields on a text that is one number token.
proof fn lemma_read_single_number(t: Seq<char>, e: Expr)
    requires
        t.len() > 0,
        is_digit(t[0]) || t[0] == '-',
        forall|i: int| 0 <= i < t.len() ==> is_numeric(#[trigger] t[i]),
        number_value(t) == Some(e),
    ensures
        read_source(t) == Ok::<_, Failure>(seq![e]),
        read_expr(t) == Ok::<_, Failure>((e, Seq::<char>::empty())),
{
    lemma_whole_number_token(t);
    let empty = Seq::<char>::empty();
    assert(skip_ws(empty) == empty);
    assert(read_all(empty) == Ok::<_, Failure>(Seq::<Expr>::empty()));
    assert(seq![e] + Seq::<Expr>::empty() =~= seq![e]);
}

/// An integer literal (an optional `-`, then digits) whose value fits in 32
/// bits reads as exactly that integer, and the token takes the whole text.
pub proof fn integer_literal_reads_as_int(t: Seq<char>)
    requires
        int_value(t) is Some,
    ensures
        read_expr(t) == Ok::<_, Failure>((Expr::Int(int_value(t)->0), Seq::<char>::empty())),
        read_source(t) == Ok::<_, Failure>(seq![Expr::Int(int_value(t)->0)]),
{
    assert(t.len() > 0 && (is_digit(t[0]) || t[0] == '-'));
    assert forall|i: int| 0 <= i < t.len() implies is_numeric(#[trigger] t[i]) by {
        if t[0] == '-' && t.len() > 1 && all_digits(t.drop_first()) {
            if i > 0 {
                assert(t[i] == t.drop_first()[i - 1]);
            }
        }
    }
    lemma_read_single_number(t, Expr::Int(int_value(t)->0));
}

/// A float literal that is no 32-bit integer literal, and starts with a
/// digit or `-`, reads as exactly one float, kept as written.
pub proof fn float_literal_reads_as_float(t: Seq<char>)
    requires
        is_float_literal(t),
        int_value(t) is None,
        t[0] != '.',
    ensures
        read_expr(t) == Ok::<_, Failure>((Expr::Float(t), Seq::<char>::empty())),
        read_source(t) == Ok::<_, Failure>(seq![Expr::Float(t)]),
{
    let u = if t.len() > 0 && t[0] == '-' { t.drop_first() } else { t };
    let w = choose|i: int| 0 <= i < u.len() && is_digit(#[trigger] u[i]);
    assert(t.len() > 0);
    assert forall|i: int| 0 <= i < t.len() implies is_numeric(#[trigger] t[i]) by {
        if t[0] == '-' {
            if i > 0 {
                assert(t[i] == u[i - 1]);
            }
        } else {
            assert(t[i] == u[i]);
        }
    }
    assert(is_digit(t[0]) || t[0] == '-') by {
        assert(t[0] != '-' ==> u[0] == t[0]);
    }
    lemma_read_single_number(t, Expr::Float(t));
}

/// A token of numeric characters that starts like a number but is neither an
/// integer nor a float literal (`1.2.3`, `1-2`, a lone `-`) is read whole and
/// refused as one malformed number, at its start.
pub proof fn malformed_number_is_refused(t: Seq<char>)
    requires
        t.len() > 0,
        is_digit(t[0]) || t[0] == '-',
        forall|i: int| 0 <= i < t.len() ==> is_numeric(#[trigger] t[i]),
        number_value(t) is None,
    ensures
        read_expr(t) == Err::<(Expr, Seq<char>), _>(Failure { kind: ErrorKind::MalformedNumber, left: t.len() }),
        read_source(t) == Err::<Seq<Expr>, _>(Failure { kind: ErrorKind::MalformedNumber, left: t.len() }),
{
    lemma_whole_number_token(t);
}

/// Reading the same text twice yields equal results: the same trees, or the
/// same error at the same offset.
pub proof fn reading_is_deterministic(
    s: Seq<char>,
    r1: Result<Vec<SExpr>, ParseError>,
    r2: Result<Vec<SExpr>, ParseError>,
)
    requires
        all_matches(r1, s, read_source(s)),
        all_matches(r2, s, read_source(s)),
    ensures
        r1 is Ok <==> r2 is Ok,
        r1 matches Ok(v1) ==> r2 matches Ok(v2) && models(v1@) == models(v2@),
        r1 matches Err(e1) ==> r2 matches Err(e2) && e1 == e2,
{
}

/// A symbol scan over a single character that ends no symbol takes that
/// character, and leaves nothing.
pub proof fn single_character_symbol(c: char)
    requires
        !ends_symbol(c),
    ensures
        read_symbol(seq![c]) == Ok::<_, Failure>((Expr::Sym(seq![c]), Seq::<char>::empty())),
{
    let s = seq![c];
    lemma_token_len(s, symbol_stop(), 1);
    assert(s.take(1) =~= s);
    assert(s.skip(1) =~= Seq::<char>::empty());
}

/// Asking for an expression where no input is left fails with
/// `UnexpectedEndOfInput`.
pub proof fn empty_input_has_no_expression()
    ensures
        read_expr(Seq::empty()) == Err::<(Expr, Seq<char>), _>(Failure {
            kind: ErrorKind::UnexpectedEndOfInput,
            left: 0,
        }),
{
}

} // verus!
