//! Numeric literals: decimal integers and floats, and integers in base 16,
//! 8 and 2.

use vstd::prelude::*;
use crate::attempt::{matched, matched_after, refused, refused_after, Attempt, Parsed};
use crate::error::{malformed, mismatch, KdlErrorKind, KdlParseError, NumberCause};
use crate::space::{char_at, is_at};

verus! {

/// The value of `c` as a digit, or 16 if it is none.
pub open spec fn digit_of(c: char) -> int {
    if '0' <= c <= '9' {
        c as int - '0' as int
    } else if 'a' <= c <= 'f' {
        c as int - 'a' as int + 10
    } else if 'A' <= c <= 'F' {
        c as int - 'A' as int + 10
    } else {
        16
    }
}

/// Whether `c` is a digit of base `radix`.
pub open spec fn is_digit(c: char, radix: int) -> bool {
    digit_of(c) < radix
}

/// Where the run of digits and `_` separators that begins at `from` ends.
pub open spec fn digits_end(s: Seq<char>, from: int, radix: int) -> int
    decreases s.len() - from,
{
    if 0 <= from < s.len() && (is_digit(s[from], radix) || s[from] == '_') {
        digits_end(s, from + 1, radix)
    } else {
        from
    }
}

/// `digits := digit (digit | '_')*`: the position behind the digits, if a
/// digit stands at `from`.
pub open spec fn spec_digits(s: Seq<char>, from: int, radix: int) -> Option<int> {
    if 0 <= from < s.len() && is_digit(s[from], radix) {
        Some(digits_end(s, from + 1, radix))
    } else {
        None
    }
}

/// The number that the digits in `d` denote in base `radix`; separators do
/// not count.
pub open spec fn digits_value(d: Seq<char>, radix: int) -> int
    decreases d.len(),
{
    if d.len() == 0 {
        0
    } else if d.last() == '_' {
        digits_value(d.drop_last(), radix)
    } else {
        digits_value(d.drop_last(), radix) * radix + digit_of(d.last())
    }
}

/// `d` without its `_` separators.
pub open spec fn without_separators(d: Seq<char>) -> Seq<char>
    decreases d.len(),
{
    if d.len() == 0 {
        d
    } else if d.last() == '_' {
        without_separators(d.drop_last())
    } else {
        without_separators(d.drop_last()).push(d.last())
    }
}

/// The failure of a literal whose digits denote too large a number.
pub open spec fn too_large<V>(offset: int) -> Attempt<V> {
    refused_after(
        Some(malformed(offset, KdlErrorKind::ParseIntError(NumberCause::Overflow))),
    )
}

/// The position behind an optional sign at `pos`.
pub open spec fn behind_sign(s: Seq<char>, pos: int) -> int {
    if char_at(s, pos, '+') || char_at(s, pos, '-') {
        pos + 1
    } else {
        pos
    }
}

/// `integer := ('+' | '-')? digits`, in base 10. The digits must denote a
/// number that a 64-bit signed integer holds; the failure of one that is too
/// large lies at the first digit.
pub open spec fn spec_integer(s: Seq<char>, pos: int) -> Attempt<i64> {
    let start = behind_sign(s, pos);
    match spec_digits(s, start, 10) {
        None => refused(start),
        Some(end) => {
            let v = digits_value(s.subrange(start, end), 10);
            if v > i64::MAX {
                too_large(start)
            } else if char_at(s, pos, '-') {
                matched((-v) as i64, end)
            } else {
                matched(v as i64, end)
            }
        },
    }
}

/// `'0' (lower | upper) digits` in base `radix`, without a sign. The failure
/// of one that is too large lies at the prefix.
pub open spec fn spec_radix(s: Seq<char>, pos: int, lower: char, upper: char, radix: int)
    -> Attempt<i64> {
    if char_at(s, pos, '0') && (char_at(s, pos + 1, lower) || char_at(s, pos + 1, upper)) {
        match spec_digits(s, pos + 2, radix) {
            None => refused(pos + 2),
            Some(end) => {
                let v = digits_value(s.subrange(pos + 2, end), radix);
                if v > i64::MAX {
                    too_large(pos)
                } else {
                    matched(v as i64, end)
                }
            },
        }
    } else {
        refused(pos)
    }
}

/// `hex := "0x" digits` in base 16.
pub open spec fn spec_hexadecimal(s: Seq<char>, pos: int) -> Attempt<i64> {
    spec_radix(s, pos, 'x', 'X', 16)
}

/// `octal := "0o" digits` in base 8.
pub open spec fn spec_octal(s: Seq<char>, pos: int) -> Attempt<i64> {
    spec_radix(s, pos, 'o', 'O', 8)
}

/// `binary := "0b" digits` in base 2.
pub open spec fn spec_binary(s: Seq<char>, pos: int) -> Attempt<i64> {
    spec_radix(s, pos, 'b', 'B', 2)
}

/// The position behind the fraction `'.' digits` at `at`, if one stands
/// there.
pub open spec fn fraction_end(s: Seq<char>, at: int) -> Option<int> {
    if char_at(s, at, '.') {
        spec_digits(s, at + 1, 10)
    } else {
        None
    }
}

/// Where a fraction at `at` is missed, if none stands there.
pub open spec fn fraction_miss(s: Seq<char>, at: int) -> int {
    if char_at(s, at, '.') {
        at + 1
    } else {
        at
    }
}

/// Whether an exponent mark stands at `at`.
pub open spec fn exponent_mark(s: Seq<char>, at: int) -> bool {
    char_at(s, at, 'e') || char_at(s, at, 'E')
}

/// The position behind the exponent `('e' | 'E') ('+' | '-')? digits` at
/// `at`, if one stands there.
pub open spec fn exponent_end(s: Seq<char>, at: int) -> Option<int> {
    if exponent_mark(s, at) {
        spec_digits(s, behind_sign(s, at + 1), 10)
    } else {
        None
    }
}

/// Where an exponent at `at` is missed, if none stands there.
pub open spec fn exponent_miss(s: Seq<char>, at: int) -> int {
    if exponent_mark(s, at) {
        behind_sign(s, at + 1)
    } else {
        at
    }
}

/// `float := ('+' | '-')? digits ('.' digits)? (('e' | 'E') ('+' | '-')? digits)?`
/// with a fraction or an exponent, or both. The value is the text of the
/// literal without its separators.
pub open spec fn spec_float(s: Seq<char>, pos: int) -> Attempt<Seq<char>> {
    let start = behind_sign(s, pos);
    match spec_digits(s, start, 10) {
        None => refused(start),
        Some(whole) => {
            let fraction = fraction_end(s, whole);
            let at = if fraction is Some {
                fraction->0
            } else {
                whole
            };
            let exponent = exponent_end(s, at);
            if exponent is Some {
                matched(without_separators(s.subrange(pos, exponent->0)), exponent->0)
            } else if fraction is Some {
                matched_after(
                    without_separators(s.subrange(pos, at)),
                    at,
                    Some(mismatch(exponent_miss(s, at))),
                )
            } else if exponent_miss(s, at) > fraction_miss(s, whole) {
                refused(exponent_miss(s, at))
            } else {
                refused(fraction_miss(s, whole))
            }
        },
    }
}

/// The run of digits ends inside the text, at or behind its start.
pub proof fn lemma_digits_end_bounds(s: Seq<char>, from: int, radix: int)
    requires
        0 <= from <= s.len(),
    ensures
        from <= digits_end(s, from, radix) <= s.len(),
    decreases s.len() - from,
{
    if from < s.len() && (is_digit(s[from], radix) || s[from] == '_') {
        lemma_digits_end_bounds(s, from + 1, radix);
    }
}

/// Digits that stand at `from` end behind it and inside the text.
pub proof fn lemma_digits_bounds(s: Seq<char>, from: int, radix: int)
    requires
        spec_digits(s, from, radix) is Some,
    ensures
        from < spec_digits(s, from, radix)->0 <= s.len(),
{
    lemma_digits_end_bounds(s, from + 1, radix);
}

/// A matched integer ends behind its start and inside the text.
pub proof fn lemma_integer_advances(s: Seq<char>, pos: int)
    requires
        0 <= pos,
        spec_integer(s, pos).is_match(),
    ensures
        pos < spec_integer(s, pos).next() <= s.len(),
{
    lemma_digits_bounds(s, behind_sign(s, pos), 10);
}

/// A matched integer with a prefix ends behind its start and inside the
/// text.
pub proof fn lemma_radix_advances(s: Seq<char>, pos: int, lower: char, upper: char, radix: int)
    requires
        spec_radix(s, pos, lower, upper, radix).is_match(),
    ensures
        pos < spec_radix(s, pos, lower, upper, radix).next() <= s.len(),
{
    lemma_digits_bounds(s, pos + 2, radix);
}

/// A matched float ends behind its start and inside the text.
pub proof fn lemma_float_advances(s: Seq<char>, pos: int)
    requires
        0 <= pos,
        spec_float(s, pos).is_match(),
    ensures
        pos < spec_float(s, pos).next() <= s.len(),
{
    let start = behind_sign(s, pos);
    lemma_digits_bounds(s, start, 10);
    let whole = spec_digits(s, start, 10)->0;
    let fraction = fraction_end(s, whole);
    if fraction is Some {
        lemma_digits_bounds(s, whole + 1, 10);
    }
    let at = if fraction is Some {
        fraction->0
    } else {
        whole
    };
    if exponent_end(s, at) is Some {
        lemma_digits_bounds(s, behind_sign(s, at + 1), 10);
    }
}

/// The numeric rules stay inside the text.
pub proof fn lemma_number_forms_within(s: Seq<char>, pos: int)
    requires
        0 <= pos <= s.len(),
    ensures
        spec_integer(s, pos).within(pos, s.len() as int),
        spec_hexadecimal(s, pos).within(pos, s.len() as int),
        spec_octal(s, pos).within(pos, s.len() as int),
        spec_binary(s, pos).within(pos, s.len() as int),
        spec_float(s, pos).within(pos, s.len() as int),
{
    let len = s.len() as int;
    let start = behind_sign(s, pos);
    if spec_digits(s, start, 10) is Some {
        lemma_digits_bounds(s, start, 10);
        let whole = spec_digits(s, start, 10)->0;
        let fraction = fraction_end(s, whole);
        if fraction is Some {
            lemma_digits_bounds(s, whole + 1, 10);
        }
        let at = if fraction is Some {
            fraction->0
        } else {
            whole
        };
        if exponent_end(s, at) is Some {
            lemma_digits_bounds(s, behind_sign(s, at + 1), 10);
        }
    }
    if spec_digits(s, pos + 2, 16) is Some {
        lemma_digits_bounds(s, pos + 2, 16);
    }
    if spec_digits(s, pos + 2, 8) is Some {
        lemma_digits_bounds(s, pos + 2, 8);
    }
    if spec_digits(s, pos + 2, 2) is Some {
        lemma_digits_bounds(s, pos + 2, 2);
    }
}

/// The digits denote no negative number, and a longer run no smaller one.
pub proof fn lemma_digits_value_grows(d: Seq<char>, radix: int)
    requires
        1 <= radix <= 16,
    ensures
        0 <= digits_value(d, radix),
        d.len() > 0 ==> digits_value(d.drop_last(), radix) <= digits_value(d, radix),
    decreases d.len(),
{
    if d.len() > 0 {
        lemma_digits_value_grows(d.drop_last(), radix);
        let v = digits_value(d.drop_last(), radix);
        assert(v <= v * radix) by (nonlinear_arith)
            requires
                0 <= v,
                1 <= radix,
        ;
    }
}

/// Whether `d` holds nothing but digits of base `radix` and separators.
pub open spec fn is_digit_run(d: Seq<char>, radix: int) -> bool {
    forall|i: int| 0 <= i < d.len() ==> is_digit(#[trigger] d[i], radix) || d[i] == '_'
}

/// Separators are taken out of each part of a text by itself.
pub proof fn lemma_without_separators_concat(a: Seq<char>, b: Seq<char>)
    ensures
        without_separators(a + b) == without_separators(a) + without_separators(b),
    decreases b.len(),
{
    if b.len() == 0 {
        assert(a + b =~= a);
        assert(without_separators(a) + without_separators(b) =~= without_separators(a));
    } else {
        assert((a + b).drop_last() =~= a + b.drop_last());
        lemma_without_separators_concat(a, b.drop_last());
        if b.last() != '_' {
            assert(without_separators(a) + without_separators(b.drop_last()).push(b.last())
                =~= (without_separators(a) + without_separators(b.drop_last())).push(
                b.last(),
            ));
        }
    }
}

/// Without its separators a run of digits holds digits only, and denotes
/// the same number.
pub proof fn lemma_separators_do_not_count(d: Seq<char>, radix: int)
    requires
        1 <= radix <= 16,
        is_digit_run(d, radix),
    ensures
        forall|i: int|
            0 <= i < without_separators(d).len() ==> is_digit(
                #[trigger] without_separators(d)[i],
                radix,
            ),
        digits_value(without_separators(d), radix) == digits_value(d, radix),
        without_separators(d).len() <= d.len(),
    decreases d.len(),
{
    if d.len() > 0 {
        let front = d.drop_last();
        assert(is_digit_run(front, radix)) by {
            assert forall|i: int| 0 <= i < front.len() implies is_digit(
                #[trigger] front[i],
                radix,
            ) || front[i] == '_' by {
                assert(front[i] == d[i]);
            }
        }
        lemma_separators_do_not_count(front, radix);
        if d.last() != '_' {
            let w = without_separators(d);
            assert(w.drop_last() =~= without_separators(front));
            assert(is_digit(d[d.len() - 1], radix));
        }
    }
}

/// The run that begins at `from` holds digits and separators only.
pub proof fn lemma_digits_end_is_run(s: Seq<char>, from: int, radix: int)
    requires
        0 <= from <= s.len(),
    ensures
        is_digit_run(s.subrange(from, digits_end(s, from, radix)), radix),
    decreases s.len() - from,
{
    lemma_digits_end_bounds(s, from, radix);
    let end = digits_end(s, from, radix);
    if from < s.len() && (is_digit(s[from], radix) || s[from] == '_') {
        lemma_digits_end_is_run(s, from + 1, radix);
        let inner = s.subrange(from + 1, end);
        let outer = s.subrange(from, end);
        assert forall|i: int| 0 <= i < outer.len() implies is_digit(#[trigger] outer[i], radix)
            || outer[i] == '_' by {
            if i > 0 {
                assert(outer[i] == inner[i - 1]);
            }
        }
    }
}

/// Where digits and separators stand from `from` to the end of the text,
/// the run that begins there ends with the text.
pub proof fn lemma_run_to_the_end(s: Seq<char>, from: int, radix: int)
    requires
        0 <= from <= s.len(),
        is_digit_run(s.subrange(from, s.len() as int), radix),
    ensures
        digits_end(s, from, radix) == s.len(),
    decreases s.len() - from,
{
    if from < s.len() {
        let tail = s.subrange(from, s.len() as int);
        assert(tail[0] == s[from]);
        assert(is_digit_run(s.subrange(from + 1, s.len() as int), radix)) by {
            let rest = s.subrange(from + 1, s.len() as int);
            assert forall|i: int| 0 <= i < rest.len() implies is_digit(#[trigger] rest[i], radix)
                || rest[i] == '_' by {
                assert(rest[i] == tail[i + 1]);
            }
        }
        lemma_run_to_the_end(s, from + 1, radix);
    }
}

/// Separators do not change a decimal integer: where the text `s` is an
/// integer literal, `s` without its separators is one too, and has the same
/// value.
pub proof fn lemma_integer_ignores_separators(s: Seq<char>)
    requires
        spec_integer(s, 0).is_match(),
        spec_integer(s, 0).next() == s.len(),
    ensures
        spec_integer(without_separators(s), 0).is_match(),
        spec_integer(without_separators(s), 0).value() == spec_integer(s, 0).value(),
        spec_integer(without_separators(s), 0).next() == without_separators(s).len(),
{
    let len = s.len() as int;
    let start = behind_sign(s, 0);
    let sign = s.subrange(0, start);
    let body = s.subrange(start, len);
    let first = s.subrange(start, start + 1);
    let rest = s.subrange(start + 1, len);
    let t = without_separators(s);
    lemma_digits_end_is_run(s, start + 1, 10);
    assert(is_digit_run(body, 10)) by {
        assert forall|i: int| 0 <= i < body.len() implies is_digit(#[trigger] body[i], 10)
            || body[i] == '_' by {
            if i > 0 {
                assert(body[i] == rest[i - 1]);
            }
        }
    }
    lemma_separators_do_not_count(body, 10);
    lemma_separators_do_not_count(rest, 10);
    // The sign and the first digit stay where they are.
    assert(without_separators(sign) =~= sign) by {
        if start == 1 {
            assert(sign.drop_last() =~= Seq::<char>::empty());
            assert(without_separators(sign.drop_last()) =~= Seq::<char>::empty());
        }
    }
    assert(without_separators(first) =~= first) by {
        assert(first.drop_last() =~= Seq::<char>::empty());
        assert(without_separators(first.drop_last()) =~= Seq::<char>::empty());
    }
    assert(body =~= first + rest);
    assert(s =~= sign + body);
    lemma_without_separators_concat(first, rest);
    lemma_without_separators_concat(sign, body);
    let digits = without_separators(body);
    assert(t == sign + digits);
    assert(digits == first + without_separators(rest));
    assert(digits[0] == s[start]);
    assert(t[start] == s[start]);
    if start == 1 {
        assert(t[0] == s[0]);
    }
    assert(behind_sign(t, 0) == start);
    assert(t.subrange(start, t.len() as int) =~= digits);
    assert(is_digit_run(t.subrange(start + 1, t.len() as int), 10)) by {
        let tail = t.subrange(start + 1, t.len() as int);
        assert forall|i: int| 0 <= i < tail.len() implies is_digit(#[trigger] tail[i], 10)
            || tail[i] == '_' by {
            assert(tail[i] == digits[i + 1]);
        }
    }
    lemma_run_to_the_end(t, start + 1, 10);
}

/// The digit that `c` is in base `radix`, if it is one.
pub fn digit(c: char, radix: u32) -> (r: Option<u32>)
    requires
        radix <= 16,
    ensures
        r is Some == is_digit(c, radix as int),
        r is Some ==> r->0 == digit_of(c),
{
    let d: u32 = if '0' <= c && c <= '9' {
        c as u32 - '0' as u32
    } else if 'a' <= c && c <= 'f' {
        c as u32 - 'a' as u32 + 10
    } else if 'A' <= c && c <= 'F' {
        c as u32 - 'A' as u32 + 10
    } else {
        16
    };
    if d < radix {
        Some(d)
    } else {
        None
    }
}

/// A run of digits: where it ends, and its value if it is not too large.
pub struct Digits {
    pub end: usize,
    pub value: Option<i64>,
}

/// Reads the digits at `from` and computes the number they denote.
pub fn digits(input: &[char], from: usize, radix: u32) -> (r: Option<Digits>)
    requires
        from <= input@.len(),
        2 <= radix <= 16,
    ensures
        match r {
            None => spec_digits(input@, from as int, radix as int) is None,
            Some(d) => {
                let v = digits_value(input@.subrange(from as int, d.end as int), radix as int);
                &&& spec_digits(input@, from as int, radix as int) == Some(d.end as int)
                &&& from < d.end <= input@.len()
                &&& match d.value {
                    Some(x) => x == v,
                    None => v > i64::MAX,
                }
            },
        },
{
    let len = input.len();
    if from >= len {
        return None;
    }
    let first = match digit(input[from], radix) {
        Some(d) => d,
        None => {
            return None;
        },
    };
    let ghost s = input@;
    let ghost r = radix as int;
    let mut value: Option<i64> = Some(first as i64);
    let mut i: usize = from + 1;
    proof {
        let one = s.subrange(from as int, i as int);
        assert(one.drop_last() =~= Seq::<char>::empty());
        assert(digits_value(one.drop_last(), r) == 0);
        assert(one.last() == s[from as int]);
    }
    while i < len
        invariant
            len == s.len(),
            s == input@,
            r == radix as int,
            2 <= radix <= 16,
            from < i <= len,
            is_digit(s[from as int], r),
            digits_end(s, i as int, r) == digits_end(s, from + 1, r),
            match value {
                Some(x) => 0 <= x && x == digits_value(s.subrange(from as int, i as int), r),
                None => digits_value(s.subrange(from as int, i as int), r) > i64::MAX,
            },
        ensures
            digits_end(s, i as int, r) == i,
        decreases len - i,
    {
        let c = input[i];
        let ghost before = s.subrange(from as int, i as int);
        let ghost now = s.subrange(from as int, i + 1);
        proof {
            assert(now.drop_last() =~= before);
            assert(now.last() == c);
            lemma_digits_value_grows(now, r);
        }
        match digit(c, radix) {
            Some(d) => {
                value = match value {
                    Some(x) => {
                        assert(x * r <= i64::MAX * 16) by (nonlinear_arith)
                            requires
                                0 <= x <= i64::MAX,
                                0 <= r <= 16,
                        ;
                        assert(0 <= x * r) by (nonlinear_arith)
                            requires
                                0 <= x,
                                0 <= r,
                        ;
                        let wide: i128 = x as i128 * radix as i128 + d as i128;
                        if wide > i64::MAX as i128 {
                            None
                        } else {
                            Some(wide as i64)
                        }
                    },
                    None => None,
                };
            },
            None => {
                if c != '_' {
                    break ;
                }
            },
        }
        i += 1;
    }
    proof {
        lemma_digits_end_bounds(s, i as int, r);
    }
    Some(Digits { end: i, value })
}

/// The outcome of a literal whose digits denote too large a number.
fn overflow<T: DeepView>(offset: usize) -> (r: Parsed<T>)
    ensures
        r.model() == too_large::<T::V>(offset as int),
{
    let kind = KdlErrorKind::ParseIntError(NumberCause::Overflow);
    Parsed { result: None, deepest: Some(KdlParseError::from_external_error(offset, kind)) }
}

/// The position behind an optional sign at `pos`.
fn skip_sign(input: &[char], pos: usize) -> (r: usize)
    requires
        pos <= input@.len(),
    ensures
        r == behind_sign(input@, pos as int),
        r <= input@.len(),
{
    if is_at(input, pos, '+') || is_at(input, pos, '-') {
        pos + 1
    } else {
        pos
    }
}

/// Matches a decimal integer at `pos`.
pub fn integer(input: &[char], pos: usize) -> (r: Parsed<i64>)
    requires
        pos <= input@.len(),
    ensures
        r.model() == spec_integer(input@, pos as int),
{
    let start = skip_sign(input, pos);
    match digits(input, start, 10) {
        None => Parsed::refused(start),
        Some(d) => match d.value {
            None => overflow(start),
            Some(v) => {
                proof {
                    lemma_digits_value_grows(input@.subrange(start as int, d.end as int), 10);
                }
                let signed = if is_at(input, pos, '-') {
                    -v
                } else {
                    v
                };
                Parsed { result: Some((signed, d.end)), deepest: None }
            },
        },
    }
}

/// Matches an unsigned integer in base `radix` behind the prefix `0` and
/// `lower` or `upper`, at `pos`.
pub fn prefixed(input: &[char], pos: usize, lower: char, upper: char, radix: u32) -> (r: Parsed<
    i64,
>)
    requires
        pos <= input@.len(),
        2 <= radix <= 16,
    ensures
        r.model() == spec_radix(input@, pos as int, lower, upper, radix as int),
{
    if !(is_at(input, pos, '0') && (is_at(input, pos + 1, lower) || is_at(
        input,
        pos + 1,
        upper,
    ))) {
        return Parsed::refused(pos);
    }
    match digits(input, pos + 2, radix) {
        None => Parsed::refused(pos + 2),
        Some(d) => match d.value {
            None => overflow(pos),
            Some(v) => Parsed { result: Some((v, d.end)), deepest: None },
        },
    }
}

/// Matches an integer in base 16 at `pos`.
pub fn hexadecimal(input: &[char], pos: usize) -> (r: Parsed<i64>)
    requires
        pos <= input@.len(),
    ensures
        r.model() == spec_hexadecimal(input@, pos as int),
{
    prefixed(input, pos, 'x', 'X', 16)
}

/// Matches an integer in base 8 at `pos`.
pub fn octal(input: &[char], pos: usize) -> (r: Parsed<i64>)
    requires
        pos <= input@.len(),
    ensures
        r.model() == spec_octal(input@, pos as int),
{
    prefixed(input, pos, 'o', 'O', 8)
}

/// Matches an integer in base 2 at `pos`.
pub fn binary(input: &[char], pos: usize) -> (r: Parsed<i64>)
    requires
        pos <= input@.len(),
    ensures
        r.model() == spec_binary(input@, pos as int),
{
    prefixed(input, pos, 'b', 'B', 2)
}

/// The text `input[from..to]` without its separators.
pub fn literal_text(input: &[char], from: usize, to: usize) -> (r: String)
    requires
        from <= to <= input@.len(),
    ensures
        r@ == without_separators(input@.subrange(from as int, to as int)),
{
    let mut r = String::new();
    let mut i: usize = from;
    proof {
        assert(input@.subrange(from as int, from as int) =~= Seq::<char>::empty());
    }
    while i < to
        invariant
            from <= i <= to <= input@.len(),
            r@ == without_separators(input@.subrange(from as int, i as int)),
        decreases to - i,
    {
        proof {
            let now = input@.subrange(from as int, i + 1);
            assert(now.drop_last() =~= input@.subrange(from as int, i as int));
            assert(now.last() == input@[i as int]);
        }
        let c = input[i];
        if c != '_' {
            r.push(c);
        }
        i += 1;
    }
    r
}

/// Matches a decimal float at `pos` and returns its text without the
/// separators.
pub fn float(input: &[char], pos: usize) -> (r: Parsed<String>)
    requires
        pos <= input@.len(),
    ensures
        r.model() == spec_float(input@, pos as int),
{
    let start = skip_sign(input, pos);
    let whole = match digits(input, start, 10) {
        None => {
            return Parsed::refused(start);
        },
        Some(d) => d.end,
    };
    let mut fraction_miss = whole;
    let mut at = whole;
    let mut has_fraction = false;
    if is_at(input, whole, '.') {
        fraction_miss = whole + 1;
        match digits(input, whole + 1, 10) {
            Some(d) => {
                at = d.end;
                has_fraction = true;
            },
            None => {},
        }
    }
    let mut exponent_miss = at;
    if is_at(input, at, 'e') || is_at(input, at, 'E') {
        let digits_at = skip_sign(input, at + 1);
        exponent_miss = digits_at;
        match digits(input, digits_at, 10) {
            Some(d) => {
                let text = literal_text(input, pos, d.end);
                return Parsed { result: Some((text, d.end)), deepest: None };
            },
            None => {},
        }
    }
    if has_fraction {
        let text = literal_text(input, pos, at);
        Parsed {
            result: Some((text, at)),
            deepest: Some(KdlParseError::from_error_kind(exponent_miss)),
        }
    } else if exponent_miss > fraction_miss {
        Parsed::refused(exponent_miss)
    } else {
        Parsed::refused(fraction_miss)
    }
}

} // verus!
