//! Reading integer and float literals.
use vstd::prelude::*;
use crate::model::{all_digits, digits_value, int_value, is_digit, is_float_literal, unsigned_part};

verus! {

/// A run of digits is worth at least as much as any of its prefixes.
proof fn lemma_digits_value_grows(u: Seq<char>, k: int)
    requires
        all_digits(u),
        0 <= k <= u.len(),
    ensures
        digits_value(u.take(k)) <= digits_value(u),
    decreases u.len(),
{
    if k < u.len() {
        let d = u.drop_last();
        assert(all_digits(d)) by {
            assert forall|i: int| 0 <= i < d.len() implies is_digit(#[trigger] d[i]) by {
                assert(d[i] == u[i]);
            }
        }
        lemma_digits_value_grows(d, k);
        assert(d.take(k) =~= u.take(k));
    } else {
        assert(u.take(k) =~= u);
    }
}

/// The value of the integer literal in `chars[from..to]`, where it writes one
/// that fits in 32 bits.
pub fn int_value_of(chars: &Vec<char>, from: usize, to: usize) -> (r: Option<i32>)
    requires
        from <= to <= chars.len(),
    ensures
        r matches Some(x) ==> int_value(chars@.subrange(from as int, to as int)) == Some(x as int),
        r is None ==> int_value(chars@.subrange(from as int, to as int)) is None,
{
    let ghost t = chars@.subrange(from as int, to as int);
    let neg = to - from > 1 && chars[from] == '-';
    let start: usize = if neg { from + 1 } else { from };
    let ghost u = chars@.subrange(start as int, to as int);
    assert(neg ==> u =~= t.drop_first());
    assert(!neg ==> u =~= t);
    assert(neg ==> !is_digit(t[0]));
    if start == to {
        return None;
    }
    let mut acc: u64 = 0;
    let mut i: usize = start;
    while i < to
        invariant
            from <= start <= i <= to <= chars.len(),
            u == chars@.subrange(start as int, to as int),
            t == chars@.subrange(from as int, to as int),
            neg ==> u == t.drop_first() && !is_digit(t[0]) && t.len() > 1 && t[0] == '-',
            !neg ==> u == t && !(t.len() > 1 && t[0] == '-'),
            acc == digits_value(u.take(i - start)),
            acc <= 2147483648,
            all_digits(u.take(i - start)),
        decreases to - i,
    {
        let c = chars[i];
        if !('0' <= c && c <= '9') {
            assert(!is_digit(u[i - start]));
            assert(!all_digits(u));
            assert(!all_digits(t));
            return None;
        }
        let ghost prev = u.take(i - start);
        acc = acc * 10 + (c as u32 - '0' as u32) as u64;
        i = i + 1;
        assert(u.take(i - start).drop_last() =~= prev);
        assert(all_digits(u.take(i - start))) by {
            assert forall|j: int| 0 <= j < i - start implies is_digit(
                #[trigger] u.take(i - start)[j],
            ) by {
                if j < i - start - 1 {
                    assert(u.take(i - start)[j] == prev[j]);
                }
            }
        }
        if acc > 2147483648 {
            proof {
                if all_digits(u) {
                    lemma_digits_value_grows(u, i - start);
                }
            }
            return None;
        }
    }
    assert(u.take(i - start) =~= u);
    if neg {
        Some((0 - acc as i64) as i32)
    } else if acc <= 2147483647 {
        Some(acc as i32)
    } else {
        None
    }
}

/// Whether `chars[from..to]` is a float literal.
pub fn is_float_text(chars: &Vec<char>, from: usize, to: usize) -> (r: bool)
    requires
        from <= to <= chars.len(),
    ensures
        r == is_float_literal(chars@.subrange(from as int, to as int)),
{
    let ghost t = chars@.subrange(from as int, to as int);
    let start: usize = if from < to && chars[from] == '-' { from + 1 } else { from };
    let ghost u = unsigned_part(t);
    assert(u =~= chars@.subrange(start as int, to as int));
    let mut dot: Option<usize> = None;
    let mut digit = false;
    let mut i: usize = start;
    while i < to
        invariant
            from <= start <= i <= to <= chars.len(),
            u == chars@.subrange(start as int, to as int),
            t == chars@.subrange(from as int, to as int),
            u == unsigned_part(t),
            forall|j: int| 0 <= j < i - start ==> is_digit(#[trigger] u[j]) || u[j] == '.',
            dot matches Some(d) ==> start <= d < i && u[d - start] == '.',
            dot is None ==> forall|j: int| 0 <= j < i - start ==> #[trigger] u[j] != '.',
            forall|j: int, k: int|
                #![trigger u[j], u[k]]
                0 <= j < i - start && 0 <= k < i - start && u[j] == '.' && u[k] == '.' ==> j == k,
            digit <==> exists|j: int| 0 <= j < i - start && is_digit(#[trigger] u[j]),
        decreases to - i,
    {
        let c = chars[i];
        let ghost p = i - start;
        assert(u[p] == c);
        if c == '.' {
            match dot {
                Some(d) => {
                    let ghost q = d - start;
                    assert(u[q] == '.' && u[p] == '.' && q != p);
                    assert(!is_float_literal(t));
                    return false;
                },
                None => {
                    dot = Some(i);
                },
            }
        } else if '0' <= c && c <= '9' {
            digit = true;
        } else {
            assert(!(is_digit(u[p]) || u[p] == '.'));
            assert(!is_float_literal(t));
            return false;
        }
        i = i + 1;
    }
    digit
}

} // verus!
