//! The whitespace class, as the `regex` crate's `\s` decides it, and the
//! skipping of whitespace runs.
use vstd::prelude::*;
use crate::model::{is_white_space, skip_ws};

verus! {

#[verifier::external_type_specification]
#[verifier::external_body]
pub struct ExRegex(regex::Regex);

#[verifier::external_type_specification]
#[verifier::external_body]
pub struct ExRegexError(regex::Error);

/// The pattern `\s`: one character of the Unicode White_Space class.
pub open spec fn space_pattern() -> Seq<char> {
    seq!['\\', 's']
}

/// A compiled regular expression, together with the pattern it was built from.
pub struct Pattern {
    re: regex::Regex,
    source: Ghost<Seq<char>>,
}

impl Pattern {
    /// The pattern this expression was compiled from.
    pub closed spec fn source(&self) -> Seq<char> {
        self.source@
    }
}

/// Relies on regex::Regex::new: on success the compiled expression is the one
/// written in `source`. It fails only on a pattern that is invalid or over the
/// size limit, and `\s` is neither.
#[verifier::external_body]
fn compile(source: &str) -> (r: Result<Pattern, regex::Error>)
    ensures
        r matches Ok(p) ==> p.source() == source@,
        source@ == space_pattern() ==> r is Ok,
{
    match regex::Regex::new(source) {
        Ok(re) => Ok(Pattern { re, source: Ghost(source@) }),
        Err(e) => Err(e),
    }
}

/// Relies on regex::Regex::is_match on the one-character text `c`: with the
/// default Unicode support, `\s` matches exactly the White_Space characters
/// (regex-syntax's table `property_bool::WHITE_SPACE`).
#[verifier::external_body]
fn matches_char(p: &Pattern, c: char) -> (r: bool)
    ensures
        p.source() == space_pattern() ==> r == is_white_space(c),
{
    p.re.is_match(&c.to_string())
}

/// The class of characters that separate tokens.
pub struct Whitespace {
    pattern: Pattern,
}

impl Whitespace {
    /// The class holds the compiled pattern `\s`.
    pub closed spec fn wf(&self) -> bool {
        self.pattern.source() == space_pattern()
    }

    /// Compiles the class.
    pub fn new() -> (r: Whitespace)
        ensures
            r.wf(),
    {
        let source = "\\s";
        proof {
            reveal_strlit("\\s");
        }
        assert(source@ =~= space_pattern());
        Whitespace { pattern: compile(source).unwrap() }
    }

    /// Whether `c` is whitespace.
    pub fn contains(&self, c: char) -> (r: bool)
        requires
            self.wf(),
        ensures
            r == is_white_space(c),
    {
        matches_char(&self.pattern, c)
    }

    /// The first position at or after `pos` that holds no whitespace.
    pub fn skip(&self, chars: &Vec<char>, pos: usize) -> (r: usize)
        requires
            self.wf(),
            pos <= chars.len(),
        ensures
            pos <= r <= chars.len(),
            chars@.skip(r as int) == skip_ws(chars@.skip(pos as int)),
    {
        let mut i = pos;
        while i < chars.len() && self.contains(chars[i])
            invariant
                self.wf(),
                pos <= i <= chars.len(),
                skip_ws(chars@.skip(i as int)) == skip_ws(chars@.skip(pos as int)),
            decreases chars.len() - i,
        {
            assert(chars@.skip(i as int).drop_first() =~= chars@.skip(i + 1));
            i = i + 1;
        }
        i
    }
}

} // verus!
