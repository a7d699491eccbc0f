//! Texts written from trees with chosen whitespace, and the law that the
//! whitespace between tokens does not change what is read.
use vstd::prelude::*;
use crate::model::{
    Expr, Failure, ends_symbol, is_digit, is_numeric, is_white_space, number_stop,
    number_value, quote_stop, read_all, read_expr, read_items, read_source, skip_ws,
    symbol_stop
};
use crate::scan::lemma_token_len;

verus! {

/// Whitespace only.
pub open spec fn is_blank(g: Seq<char>) -> bool {
    forall|i: int| 0 <= i < g.len() ==> is_white_space(#[trigger] g[i])
}

/// A run of whitespace written as one space, or as nothing where it was empty.
pub open spec fn collapse_gap(g: Seq<char>) -> Seq<char> {
    if g.len() == 0 {
        Seq::empty()
    } else {
        seq![' ']
    }
}

/// A number token: numeric characters, starting with a digit or `-`, that
/// stand for an integer or a float.
pub open spec fn number_token(t: Seq<char>) -> bool {
    &&& t.len() > 0
    &&& (is_digit(t[0]) || t[0] == '-')
    &&& forall|i: int| 0 <= i < t.len() ==> is_numeric(#[trigger] t[i])
    &&& number_value(t) is Some
}

/// A string literal: text without double quotes, between two of them.
pub open spec fn string_token(t: Seq<char>) -> bool {
    &&& t.len() >= 2
    &&& t[0] == '"'
    &&& t[t.len() - 1] == '"'
    &&& forall|i: int| 1 <= i < t.len() - 1 ==> #[trigger] t[i] != '"'
}

/// A symbol: no space or `)` in it, and a first character that starts no
/// other form and is no whitespace.
pub open spec fn symbol_token(t: Seq<char>) -> bool {
    &&& t.len() > 0
    &&& !is_digit(t[0]) && t[0] != '-' && t[0] != '"' && t[0] != '('
    &&& !is_white_space(t[0])
    &&& forall|i: int| 0 <= i < t.len() ==> !ends_symbol(#[trigger] t[i])
}

/// The expression an atom token stands for.
pub open spec fn atom_of(t: Seq<char>) -> Expr {
    if number_token(t) {
        number_value(t)->0
    } else if string_token(t) {
        Expr::Str(t.subrange(1, t.len() - 1))
    } else {
        Expr::Sym(t)
    }
}

/// A tree as written: each token with the whitespace that follows it.
pub enum Layout {
    /// A number, symbol or string token, and the whitespace after it.
    Atom { text: Seq<char>, gap: Seq<char> },
    /// A list: the whitespace after `(`, the elements, and the whitespace
    /// after `)`.
    Group { lead: Seq<char>, items: Seq<Layout>, gap: Seq<char> },
}

impl Layout {
    /// The whitespace after this expression.
    pub open spec fn gap(self) -> Seq<char> {
        match self {
            Layout::Atom { gap, .. } => gap,
            Layout::Group { gap, .. } => gap,
        }
    }

    /// A number or a symbol, which runs on into what follows it unless
    /// whitespace or `)` comes first.
    pub open spec fn needs_gap(self) -> bool {
        self matches Layout::Atom { text, .. } && !string_token(text)
    }
}

/// The text of `l`.
pub open spec fn write(l: Layout) -> Seq<char>
    decreases l,
{
    match l {
        Layout::Atom { text, gap } => text + gap,
        Layout::Group { lead, items, gap } => seq!['('] + lead + write_items(items) + seq![')'] + gap,
    }
}

/// The texts of `ls`, one after the other.
pub open spec fn write_items(ls: Seq<Layout>) -> Seq<char>
    decreases ls,
{
    if ls.len() == 0 {
        Seq::empty()
    } else {
        write(ls[0]) + write_items(ls.drop_first())
    }
}

/// The expression `l` writes.
pub open spec fn tree(l: Layout) -> Expr
    decreases l,
{
    match l {
        Layout::Atom { text, .. } => atom_of(text),
        Layout::Group { items, .. } => Expr::List(trees(items)),
    }
}

/// The expressions `ls` write.
pub open spec fn trees(ls: Seq<Layout>) -> Seq<Expr>
    decreases ls,
{
    if ls.len() == 0 {
        Seq::empty()
    } else {
        seq![tree(ls[0])] + trees(ls.drop_first())
    }
}

/// `l` with every run of whitespace collapsed.
pub open spec fn collapse(l: Layout) -> Layout
    decreases l,
{
    match l {
        Layout::Atom { text, gap } => Layout::Atom { text, gap: collapse_gap(gap) },
        Layout::Group { lead, items, gap } => Layout::Group {
            lead: collapse_gap(lead),
            items: collapse_items(items),
            gap: collapse_gap(gap),
        },
    }
}

/// `ls` with every run of whitespace collapsed.
pub open spec fn collapse_items(ls: Seq<Layout>) -> Seq<Layout>
    decreases ls,
{
    if ls.len() == 0 {
        Seq::empty()
    } else {
        seq![collapse(ls[0])] + collapse_items(ls.drop_first())
    }
}

/// Well-formed tokens, whitespace between them, and a symbol followed by
/// whitespace only where that whitespace starts with a space.
pub open spec fn well_laid(l: Layout) -> bool
    decreases l,
{
    match l {
        Layout::Atom { text, gap } => {
            &&& number_token(text) || string_token(text) || symbol_token(text)
            &&& is_blank(gap)
            &&& symbol_token(text) && gap.len() > 0 ==> gap[0] == ' '
        },
        Layout::Group { lead, items, gap } => {
            &&& is_blank(lead)
            &&& is_blank(gap)
            &&& items_well_laid(items)
        },
    }
}

/// Each of `ls` well laid, and each number or symbol that another
/// expression follows is followed by whitespace first.
pub open spec fn items_well_laid(ls: Seq<Layout>) -> bool
    decreases ls,
{
    ls.len() > 0 ==> {
        &&& well_laid(ls[0])
        &&& ls.len() > 1 && ls[0].needs_gap() ==> ls[0].gap().len() > 0
        &&& items_well_laid(ls.drop_first())
    }
}

proof fn lemma_skip_blank(g: Seq<char>, x: Seq<char>)
    requires
        is_blank(g),
        x.len() == 0 || !is_white_space(x[0]),
    ensures
        skip_ws(g + x) == x,
    decreases g.len(),
{
    if g.len() > 0 {
        assert((g + x)[0] == g[0]);
        assert((g + x).drop_first() =~= g.drop_first() + x);
        assert(is_blank(g.drop_first())) by {
            assert forall|i: int| 0 <= i < g.drop_first().len() implies is_white_space(
                #[trigger] g.drop_first()[i],
            ) by {
                assert(g.drop_first()[i] == g[i + 1]);
            }
        }
        lemma_skip_blank(g.drop_first(), x);
    } else {
        assert(g + x =~= x);
    }
}

proof fn lemma_write_starts(l: Layout)
    requires
        well_laid(l),
    ensures
        write(l).len() > 0,
        !is_white_space(write(l)[0]),
        write(l)[0] != ')',
        is_blank(l.gap()),
{
    match l {
        Layout::Atom { text, gap } => {
            assert(write(l)[0] == text[0]);
            if symbol_token(text) {
                assert(!ends_symbol(text[0]));
            }
        },
        Layout::Group { lead, items, gap } => {
            assert(write(l)[0] == '(');
        },
    }
}

proof fn lemma_items_start(ls: Seq<Layout>, y: Seq<char>)
    requires
        items_well_laid(ls),
        ls.len() > 0,
    ensures
        (write_items(ls) + y).len() > 0,
        !is_white_space((write_items(ls) + y)[0]),
        (write_items(ls) + y)[0] != ')',
{
    lemma_write_starts(ls[0]);
    assert((write_items(ls) + y)[0] == write(ls[0])[0]);
}

/// Reading the text of a well laid expression, with what follows it, yields
/// that expression and leaves its whitespace and what follows.
proof fn lemma_read_layout(l: Layout, x: Seq<char>)
    requires
        well_laid(l),
        l.needs_gap() && l.gap().len() == 0 ==> x.len() == 0 || x[0] == ')',
    ensures
        read_expr(write(l) + x) == Ok::<_, Failure>((tree(l), l.gap() + x)),
    decreases l, 1int,
{
    let s = write(l) + x;
    match l {
        Layout::Atom { text, gap } => {
            let after = gap + x;
            assert(s =~= text + after);
            assert(s[0] == text[0]);
            let n = text.len() as int;
            assert(s.take(n) =~= text);
            assert(s.skip(n) =~= after);
            assert forall|i: int| 0 <= i < n implies s[i] == text[i] by {}
            if number_token(text) {
                assert forall|i: int| 0 <= i < n implies !(#[trigger] number_stop()(s[i])) by {
                    assert(is_numeric(text[i]));
                }
                assert(n == s.len() || number_stop()(s[n])) by {
                    if n < s.len() {
                        assert(s[n] == after[0]);
                        if gap.len() > 0 {
                            assert(after[0] == gap[0]);
                            assert(is_white_space(gap[0]));
                        } else {
                            assert(after[0] == x[0]);
                        }
                    }
                }
                lemma_token_len(s, number_stop(), n);
            } else if string_token(text) {
                let body = s.drop_first();
                let k = n - 2;
                assert forall|i: int| 0 <= i < k implies !(#[trigger] quote_stop()(body[i])) by {
                    assert(body[i] == text[i + 1]);
                }
                assert(body[k] == text[n - 1]);
                lemma_token_len(body, quote_stop(), k);
                assert(body.take(k) =~= text.subrange(1, n - 1));
                assert(body.skip(k + 1) =~= after);
            } else {
                assert forall|i: int| 0 <= i < n implies !(#[trigger] symbol_stop()(s[i])) by {
                    assert(!ends_symbol(text[i]));
                }
                assert(n == s.len() || symbol_stop()(s[n])) by {
                    if n < s.len() {
                        assert(s[n] == after[0]);
                        if gap.len() > 0 {
                            assert(after[0] == gap[0]);
                        } else {
                            assert(after[0] == x[0]);
                        }
                    }
                }
                lemma_token_len(s, symbol_stop(), n);
            }
        },
        Layout::Group { lead, items, gap } => {
            let w = write_items(items);
            let tail = w + seq![')'] + gap + x;
            assert(s =~= seq!['('] + (lead + tail));
            assert(s.drop_first() =~= lead + tail);
            if items.len() == 0 {
                assert(w =~= Seq::<char>::empty());
                assert(tail[0] == ')');
                lemma_skip_blank(lead, tail);
                assert(tail.drop_first() =~= gap + x);
                assert(trees(items) =~= Seq::<Expr>::empty());
            } else {
                lemma_items_start(items, seq![')'] + gap + x);
                assert(tail =~= w + (seq![')'] + gap + x));
                lemma_skip_blank(lead, tail);
                lemma_read_items(items, gap + x, s.len());
                assert(w + seq![')'] + (gap + x) =~= tail);
            }
        },
    }
}

/// Reading the texts of well laid elements, then `)`, yields the elements
/// and leaves what follows the `)`.
proof fn lemma_read_items(ls: Seq<Layout>, y: Seq<char>, open: nat)
    requires
        items_well_laid(ls),
        ls.len() > 0,
    ensures
        read_items(write_items(ls) + seq![')'] + y, open) == Ok::<_, Failure>((trees(ls), y)),
    decreases ls, 0int,
{
    let first = ls[0];
    let more = ls.drop_first();
    let x = write_items(more) + seq![')'] + y;
    let r = write_items(ls) + seq![')'] + y;
    assert(r =~= write(first) + x);
    lemma_read_layout(first, x);
    lemma_write_starts(first);
    if more.len() == 0 {
        assert(x =~= seq![')'] + y);
        assert(x[0] == ')');
        lemma_skip_blank(first.gap(), x);
        assert(x.drop_first() =~= y);
        assert(trees(more) =~= Seq::<Expr>::empty());
        assert(trees(ls) =~= seq![tree(first)]);
    } else {
        lemma_items_start(more, seq![')'] + y);
        assert(x =~= write_items(more) + (seq![')'] + y));
        lemma_skip_blank(first.gap(), x);
        lemma_write_starts(first);
        lemma_read_items(more, y, open);
    }
}

/// Reading the texts of well laid expressions, one after the other, yields
/// those expressions.
proof fn lemma_read_all_layout(ls: Seq<Layout>)
    requires
        items_well_laid(ls),
    ensures
        read_all(write_items(ls)) == Ok::<_, Failure>(trees(ls)),
    decreases ls,
{
    if ls.len() > 0 {
        let first = ls[0];
        let more = ls.drop_first();
        let x = write_items(more);
        lemma_read_layout(first, x);
        lemma_write_starts(first);
        if more.len() > 0 {
            lemma_items_start(more, Seq::empty());
            assert(x + Seq::<char>::empty() =~= x);
        }
        lemma_skip_blank(first.gap(), x);
        lemma_read_all_layout(more);
    } else {
        assert(trees(ls) =~= Seq::<Expr>::empty());
    }
}

/// A text written from well laid expressions, after any leading whitespace,
/// reads as exactly those expressions.
pub proof fn laid_out_text_reads_as_its_trees(lead: Seq<char>, ls: Seq<Layout>)
    requires
        is_blank(lead),
        items_well_laid(ls),
    ensures
        read_source(lead + write_items(ls)) == Ok::<_, Failure>(trees(ls)),
{
    if ls.len() > 0 {
        lemma_items_start(ls, Seq::empty());
        assert(write_items(ls) + Seq::<char>::empty() =~= write_items(ls));
    }
    lemma_skip_blank(lead, write_items(ls));
    lemma_read_all_layout(ls);
}

proof fn lemma_collapse_gap(g: Seq<char>)
    ensures
        is_blank(collapse_gap(g)),
        collapse_gap(g).len() > 0 <==> g.len() > 0,
        collapse_gap(g).len() > 0 ==> collapse_gap(g)[0] == ' ',
{
}

/// Collapsing whitespace keeps an expression well laid, and keeps what it
/// writes.
proof fn lemma_collapse(l: Layout)
    requires
        well_laid(l),
    ensures
        well_laid(collapse(l)),
        tree(collapse(l)) == tree(l),
        collapse(l).needs_gap() == l.needs_gap(),
        collapse(l).gap().len() > 0 <==> l.gap().len() > 0,
    decreases l, 1int,
{
    match l {
        Layout::Atom { text, gap } => {
            lemma_collapse_gap(gap);
        },
        Layout::Group { lead, items, gap } => {
            lemma_collapse_gap(lead);
            lemma_collapse_gap(gap);
            lemma_collapse_items(items);
        },
    }
}

/// Collapsing whitespace keeps elements well laid, and keeps what they
/// write.
proof fn lemma_collapse_items(ls: Seq<Layout>)
    requires
        items_well_laid(ls),
    ensures
        items_well_laid(collapse_items(ls)),
        trees(collapse_items(ls)) == trees(ls),
    decreases ls, 0int,
{
    if ls.len() > 0 {
        let c = collapse_items(ls);
        lemma_collapse(ls[0]);
        lemma_collapse_items(ls.drop_first());
        assert(c[0] == collapse(ls[0]));
        assert(c.drop_first() =~= collapse_items(ls.drop_first()));
    } else {
        assert(collapse_items(ls) =~= Seq::<Layout>::empty());
    }
}

/// Whitespace between tokens does not matter: a text written from well laid
/// expressions reads as the same text with each run of whitespace collapsed
/// to one space, and both read as those expressions.
pub proof fn whitespace_runs_do_not_matter(lead: Seq<char>, ls: Seq<Layout>)
    requires
        is_blank(lead),
        items_well_laid(ls),
    ensures
        read_source(lead + write_items(ls)) == read_source(
            collapse_gap(lead) + write_items(collapse_items(ls)),
        ),
        read_source(lead + write_items(ls)) == Ok::<_, Failure>(trees(ls)),
{
    laid_out_text_reads_as_its_trees(lead, ls);
    lemma_collapse_gap(lead);
    lemma_collapse_items(ls);
    laid_out_text_reads_as_its_trees(collapse_gap(lead), collapse_items(ls));
}

} // verus!
