//! Texts as sequences of characters, and the byte offsets of their
//! positions.

use vstd::prelude::*;
use vstd::string::axiom_spec_iter;
use vstd::utf8::{encode_scalar, encode_utf8};

verus! {

/// Assumed of `std::string::String::push`, which this library does not
/// verify: after the call the text holds the characters it held before, and
/// `ch` behind them.
pub assume_specification[ std::string::String::push ](s: &mut std::string::String, ch: char)
    ensures
        final(s)@ == old(s)@.push(ch),
;

/// The characters of `text`, in order.
pub fn chars_of(text: &str) -> (v: Vec<char>)
    ensures
        v@ == text@,
{
    broadcast use axiom_spec_iter;

    let mut v: Vec<char> = Vec::new();
    for c in it: text.chars()
        invariant
            it.seq() == text@,
            v@ == it.seq().take(it.index() as int),
    {
        v.push(c);
    }
    v
}

/// The text that holds the characters `input[from..to]`.
pub fn string_of(input: &[char], from: usize, to: usize) -> (r: String)
    requires
        from <= to <= input@.len(),
    ensures
        r@ == input@.subrange(from as int, to as int),
{
    let mut r = String::new();
    let mut i: usize = from;
    while i < to
        invariant
            from <= i <= to <= input@.len(),
            r@ == input@.subrange(from as int, i as int),
        decreases to - i,
    {
        r.push(input[i]);
        i += 1;
    }
    r
}

/// The byte offset of position `i` in the UTF-8 encoding of `s`.
pub open spec fn byte_offset(s: Seq<char>, i: int) -> int {
    encode_utf8(s.take(i)).len() as int
}

/// Appending a character appends its encoding.
pub proof fn lemma_encode_push(a: Seq<char>, c: char)
    ensures
        encode_utf8(a.push(c)) =~= encode_utf8(a) + encode_scalar(c as u32),
    decreases a.len(),
{
    if a.len() == 0 {
        assert(a.push(c).drop_first() =~= a);
    } else {
        assert(a.push(c).drop_first() =~= a.drop_first().push(c));
        lemma_encode_push(a.drop_first(), c);
    }
}

/// Byte offsets grow with the position, by at least one byte for each
/// character.
pub proof fn lemma_byte_offset_grows(s: Seq<char>, i: int, j: int)
    requires
        0 <= i <= j <= s.len(),
    ensures
        byte_offset(s, i) + (j - i) <= byte_offset(s, j),
    decreases j - i,
{
    if i < j {
        lemma_byte_offset_grows(s, i, j - 1);
        assert(s.take(j) =~= s.take(j - 1).push(s[j - 1]));
        lemma_encode_push(s.take(j - 1), s[j - 1]);
    }
}

/// The number of bytes that encode `c`.
pub fn width_of(c: char) -> (w: usize)
    ensures
        w == encode_scalar(c as u32).len(),
        1 <= w <= 4,
{
    let u: u32 = c as u32;
    if u < 0x80 {
        1
    } else if u < 0x800 {
        2
    } else if u < 0x10000 {
        3
    } else {
        4
    }
}

/// The byte offset of position `upto` in the UTF-8 encoding of `input`.
pub fn byte_offset_of(input: &[char], upto: usize) -> (r: usize)
    requires
        upto <= input@.len(),
        encode_utf8(input@).len() <= usize::MAX,
    ensures
        r == byte_offset(input@, upto as int),
{
    let mut r: usize = 0;
    let mut i: usize = 0;
    assert(input@.take(0) =~= Seq::<char>::empty());
    while i < upto
        invariant
            i <= upto <= input@.len(),
            encode_utf8(input@).len() <= usize::MAX,
            r == byte_offset(input@, i as int),
        decreases upto - i,
    {
        let w = width_of(input[i]);
        proof {
            assert(input@.take(i + 1) =~= input@.take(i as int).push(input@[i as int]));
            lemma_encode_push(input@.take(i as int), input@[i as int]);
            lemma_byte_offset_grows(input@, i + 1, input@.len() as int);
            assert(input@.take(input@.len() as int) =~= input@);
        }
        r += w;
        i += 1;
    }
    r
}

} // verus!
