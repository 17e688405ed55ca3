//! Building text character by character.

use vstd::prelude::*;
use vstd::string::StringSliceAdditionalSpecFns;
use vstd::utf8::{
    decode_utf8, encode_utf8_decode_utf8, encode_utf8_valid_utf8, is_char_boundary,
    is_char_boundary_iff_not_is_continuation_byte, length_of_first_scalar, pop_first_scalar,
    valid_first_scalar, valid_utf8,
};

verus! {

/// Trusted: `String::push` appends the given character to the end of the
/// string, as its documentation says.
pub assume_specification[ String::push ](s: &mut String, ch: char)
    ensures
        final(s)@ == old(s)@.push(ch),
;

/// The character that shows a decimal digit.
pub open spec fn digit_char(d: u8) -> char {
    (d + 48) as char
}

/// The text that shows a digit string.
pub open spec fn digits_text(s: Seq<u8>) -> Seq<char> {
    Seq::new(s.len(), |i: int| digit_char(s[i]))
}

/// `n` copies of `c`.
pub open spec fn repeat_char(c: char, n: nat) -> Seq<char> {
    Seq::new(n, |i: int| c)
}

/// Appends the characters of a digit string.
pub fn push_digits(out: &mut String, digits: &Vec<u8>)
    requires
        forall|i: int| 0 <= i < digits@.len() ==> digits@[i] <= 9,
    ensures
        final(out)@ == old(out)@ + digits_text(digits@),
{
    let n = digits.len();
    let mut i: usize = 0;
    while i < n
        invariant
            i <= n,
            n == digits.len(),
            forall|j: int| 0 <= j < digits@.len() ==> digits@[j] <= 9,
            out@ == old(out)@ + digits_text(digits@.subrange(0, i as int)),
        decreases n - i,
    {
        let d = digits[i];
        out.push((d + 48) as char);
        i += 1;
        proof {
            assert(out@ =~= old(out)@ + digits_text(digits@.subrange(0, i as int)));
        }
    }
    proof {
        assert(digits@.subrange(0, n as int) =~= digits@);
    }
}

/// Appends `n` copies of `c`.
pub fn push_repeat(out: &mut String, c: char, n: usize)
    ensures
        final(out)@ == old(out)@ + repeat_char(c, n as nat),
{
    let mut i: usize = 0;
    while i < n
        invariant
            i <= n,
            out@ == old(out)@ + repeat_char(c, i as nat),
        decreases n - i,
    {
        out.push(c);
        i += 1;
        proof {
            assert(out@ =~= old(out)@ + repeat_char(c, i as nat));
        }
    }
}

/// The text that the bytes between `from` and `to` encode.
pub open spec fn source_text(s: Seq<u8>, from: int, to: int) -> Seq<char> {
    decode_utf8(s.subrange(from, to))
}

/// After the character that starts at a boundary comes a boundary.
pub proof fn lemma_next_boundary(b: Seq<u8>, i: int)
    requires
        valid_utf8(b),
        is_char_boundary(b, i),
        0 <= i < b.len(),
    ensures
        is_char_boundary(b, i + length_of_first_scalar(b.subrange(i, b.len() as int))),
        i + length_of_first_scalar(b.subrange(i, b.len() as int)) <= b.len(),
    decreases b.len(),
{
    reveal_with_fuel(is_char_boundary, 2);
    reveal_with_fuel(valid_utf8, 2);
    let first = length_of_first_scalar(b);
    let rest = pop_first_scalar(b);
    if i == 0 {
        assert(b.subrange(0, b.len() as int) =~= b);
        assert(valid_first_scalar(b));
        assert(is_char_boundary(rest, 0));
    } else {
        assert(rest.subrange(i - first, rest.len() as int) =~= b.subrange(i, b.len() as int));
        lemma_next_boundary(rest, i - first);
    }
}

/// A range that begins and ends with an ASCII byte lies between two
/// character boundaries.
pub proof fn lemma_ascii_edges(b: Seq<u8>, from: int, to: int)
    requires
        valid_utf8(b),
        0 <= from < to <= b.len(),
        b[from] <= 127,
        b[to - 1] <= 127,
    ensures
        is_char_boundary(b, from),
        is_char_boundary(b, to),
{
    is_char_boundary_iff_not_is_continuation_byte(b, from);
    is_char_boundary_iff_not_is_continuation_byte(b, to - 1);
    lemma_next_boundary(b, to - 1);
}

/// A boundary of a text that lies after another boundary is a boundary of
/// what follows that one.
pub proof fn lemma_boundary_of_suffix(b: Seq<u8>, from: int, to: int)
    requires
        valid_utf8(b),
        is_char_boundary(b, from),
        is_char_boundary(b, to),
        0 <= from <= to <= b.len(),
    ensures
        is_char_boundary(b.subrange(from, b.len() as int), to - from),
        valid_utf8(b.subrange(from, b.len() as int)),
    decreases b.len(),
{
    reveal_with_fuel(is_char_boundary, 2);
    reveal_with_fuel(valid_utf8, 2);
    if from == 0 {
        assert(b.subrange(0, b.len() as int) =~= b);
    } else {
        let first = length_of_first_scalar(b);
        let rest = pop_first_scalar(b);
        assert(rest.subrange(from - first, rest.len() as int) =~= b.subrange(from, b.len() as int));
        lemma_boundary_of_suffix(rest, from - first, to - first);
    }
}

/// The part of a text between two character boundaries.
pub fn slice<'a>(s: &'a str, from: usize, to: usize) -> (r: &'a str)
    requires
        from <= to <= s.spec_bytes().len(),
        is_char_boundary(s.spec_bytes(), from as int),
        is_char_boundary(s.spec_bytes(), to as int),
    ensures
        r.spec_bytes() == s.spec_bytes().subrange(from as int, to as int),
        r@ == source_text(s.spec_bytes(), from as int, to as int),
{
    let ghost b = s.spec_bytes();
    proof {
        encode_utf8_valid_utf8(s@);
        lemma_boundary_of_suffix(b, from as int, to as int);
    }
    let (_, tail) = s.split_at(from);
    let (r, _) = tail.split_at(to - from);
    proof {
        assert(tail.spec_bytes().subrange(0, to - from) =~= b.subrange(from as int, to as int));
        encode_utf8_decode_utf8(r@);
    }
    r
}

} // verus!
