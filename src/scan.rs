//! Carving tokens out of text: the boundary scanner and its helpers.
use vstd::prelude::*;
use crate::model::token_len;

verus! {

/// Relies on String::push: the character is appended at the end.
pub assume_specification[ String::push ](s: &mut String, ch: char)
    ensures
        final(s)@ == old(s)@.push(ch),
;

/// The characters of `s`, in order.
pub fn chars_of(s: &str) -> (r: Vec<char>)
    ensures
        r@ == s@,
{
    let mut out: Vec<char> = Vec::new();
    for c in it: s.chars()
        invariant
            out@ == it.seq().take(it.index() as int),
    {
        out.push(c);
    }
    out
}

/// The characters of `chars` from `from` up to `to`, as a string.
pub fn text_of(chars: &Vec<char>, from: usize, to: usize) -> (r: String)
    requires
        from <= to <= chars.len(),
    ensures
        r@ == chars@.subrange(from as int, to as int),
{
    let mut out = String::new();
    let mut i = from;
    while i < to
        invariant
            from <= i <= to <= chars.len(),
            out@ == chars@.subrange(from as int, i as int),
        decreases to - i,
    {
        out.push(chars[i]);
        assert(chars@.subrange(from as int, i + 1) =~= chars@.subrange(from as int, i as int).push(
            chars@[i as int],
        ));
        i = i + 1;
    }
    out
}

/// The first position at or after `pos` whose character meets `stop`, or the
/// end of `chars` where none does.
pub fn scan_until<F: Fn(char) -> bool>(chars: &Vec<char>, pos: usize, stop: F) -> (r: usize)
    requires
        pos <= chars.len(),
        forall|c: char| stop.requires((c,)),
    ensures
        pos <= r <= chars.len(),
        forall|i: int| pos <= i < r ==> stop.ensures((chars@[i],), false),
        r < chars.len() ==> stop.ensures((chars@[r as int],), true),
{
    let mut i = pos;
    while i < chars.len()
        invariant
            pos <= i <= chars.len(),
            forall|c: char| stop.requires((c,)),
            forall|j: int| pos <= j < i ==> stop.ensures((chars@[j],), false),
        decreases chars.len() - i,
    {
        if stop(chars[i]) {
            return i;
        }
        i = i + 1;
    }
    i
}

/// A scan that stops at the first character meeting `stop` has read
/// `token_len` characters.
pub proof fn lemma_token_len(s: Seq<char>, stop: spec_fn(char) -> bool, k: int)
    requires
        0 <= k <= s.len(),
        forall|i: int| 0 <= i < k ==> !stop(#[trigger] s[i]),
        k == s.len() || stop(s[k]),
    ensures
        token_len(s, stop) == k,
    decreases k,
{
    if k > 0 {
        assert forall|i: int| 0 <= i < k - 1 implies !stop(#[trigger] s.drop_first()[i]) by {
            assert(s.drop_first()[i] == s[i + 1]);
        }
        lemma_token_len(s.drop_first(), stop, k - 1);
    }
}

/// Splits `s` before its first character that meets `stop_condition`: the
/// token read, and the rest of the input. Where no character meets it, the
/// whole input is the token and the rest is empty.
pub fn read_until<F: Fn(char) -> bool>(s: &str, stop_condition: F) -> (r: (&str, &str))
    requires
        forall|c: char| stop_condition.requires((c,)),
    ensures
        r.0@ + r.1@ == s@,
        forall|i: int| 0 <= i < r.0@.len() ==> stop_condition.ensures((s@[i],), false),
        r.1@.len() > 0 ==> stop_condition.ensures((r.1@[0],), true),
{
    let chars = chars_of(s);
    let end = scan_until(&chars, 0, stop_condition);
    let n = chars.len();
    let token = s.substring_char(0, end);
    let rest = s.substring_char(end, n);
    assert(token@ + rest@ =~= s@);
    (token, rest)
}

} // verus!
