//! Identifiers, quoted strings with escapes, and raw strings.

use vstd::prelude::*;
use crate::attempt::{matched, refused, Attempt, Parsed};
use crate::space::{char_at, is_at};
use crate::text::string_of;

verus! {

/// Whether `c` is an ASCII letter.
pub open spec fn is_letter(c: char) -> bool {
    ('a' <= c <= 'z') || ('A' <= c <= 'Z')
}

/// Whether `c` may begin a bare identifier: a letter or `_`.
pub open spec fn is_identifier_start(c: char) -> bool {
    is_letter(c) || c == '_'
}

/// Whether `c` is one of the symbols that a bare identifier may hold.
pub open spec fn is_identifier_symbol(c: char) -> bool {
    c == '~' || c == '!' || c == '@' || c == '#' || c == '$' || c == '%' || c == '^' || c == '&'
        || c == '*' || c == '-' || c == '_' || c == '+' || c == '.' || c == '/' || c == ':' || c
        == '<' || c == '>' || c == '?'
}

/// Whether `c` may follow the first character of a bare identifier: a
/// letter, a decimal digit or a symbol.
pub open spec fn is_identifier_char(c: char) -> bool {
    is_letter(c) || ('0' <= c <= '9') || is_identifier_symbol(c)
}

/// Where the run of identifier characters that begins at `from` ends.
pub open spec fn identifier_end(s: Seq<char>, from: int) -> int
    decreases s.len() - from,
{
    if 0 <= from < s.len() && is_identifier_char(s[from]) {
        identifier_end(s, from + 1)
    } else {
        from
    }
}

/// A bare identifier: a start character and the identifier characters
/// behind it.
pub open spec fn spec_bare_identifier(s: Seq<char>, pos: int) -> Attempt<Seq<char>> {
    if 0 <= pos < s.len() && is_identifier_start(s[pos]) {
        let end = identifier_end(s, pos + 1);
        matched(s.subrange(pos, end), end)
    } else {
        refused(pos)
    }
}

/// The character that `\` and `c` stand for in a quoted string, if the pair
/// is an escape: `\n`, `\r`, `\t`, `\\` and `\"` are, and no other.
pub open spec fn unescape(c: char) -> Option<char> {
    if c == 'n' {
        Some('\n')
    } else if c == 'r' {
        Some('\r')
    } else if c == 't' {
        Some('\t')
    } else if c == '\\' {
        Some('\\')
    } else if c == '"' {
        Some('"')
    } else {
        None
    }
}

/// `attempt` with `front` before its value.
pub open spec fn prepend(front: Seq<char>, attempt: Attempt<Seq<char>>) -> Attempt<Seq<char>> {
    if attempt.is_match() {
        matched(front + attempt.value(), attempt.next())
    } else {
        attempt
    }
}

/// The rest of a quoted string from `from`, behind the opening quote: the
/// characters up to the closing quote, escapes decoded. A string that the
/// text ends in fails at the end of the text; a `\` before a character that
/// makes no escape fails at that character.
pub open spec fn spec_string_body(s: Seq<char>, from: int) -> Attempt<Seq<char>>
    decreases s.len() - from,
{
    if from < 0 || from >= s.len() {
        refused(s.len() as int)
    } else if s[from] == '"' {
        matched(Seq::empty(), from + 1)
    } else if s[from] == '\\' {
        if from + 1 < s.len() && unescape(s[from + 1]) is Some {
            prepend(seq![unescape(s[from + 1])->0], spec_string_body(s, from + 2))
        } else {
            refused(from + 1)
        }
    } else {
        prepend(seq![s[from]], spec_string_body(s, from + 1))
    }
}

/// `string := '"' (escape | [^"\])* '"'`
pub open spec fn spec_string(s: Seq<char>, pos: int) -> Attempt<Seq<char>> {
    if char_at(s, pos, '"') {
        spec_string_body(s, pos + 1)
    } else {
        refused(pos)
    }
}

/// `identifier := bare-identifier | string`
pub open spec fn spec_identifier(s: Seq<char>, pos: int) -> Attempt<Seq<char>> {
    let bare = spec_bare_identifier(s, pos);
    if bare.is_match() {
        bare
    } else {
        spec_string(s, pos)
    }
}

/// Where the run of `#` that begins at `from` ends.
pub open spec fn hashes_end(s: Seq<char>, from: int) -> int
    decreases s.len() - from,
{
    if char_at(s, from, '#') {
        hashes_end(s, from + 1)
    } else {
        from
    }
}

/// Whether a raw string opened with `hashes` hashes closes at `at`: a quote
/// stands there, and at least `hashes` hashes behind it.
pub open spec fn closes_at(s: Seq<char>, at: int, hashes: int) -> bool {
    char_at(s, at, '"') && hashes_end(s, at + 1) >= at + 1 + hashes
}

/// The first position at or behind `from` where a raw string opened with
/// `hashes` hashes closes, or the length of the text if there is none.
pub open spec fn raw_close(s: Seq<char>, from: int, hashes: int) -> int
    decreases s.len() - from,
{
    if from < 0 || from >= s.len() {
        s.len() as int
    } else if closes_at(s, from, hashes) {
        from
    } else {
        raw_close(s, from + 1, hashes)
    }
}

/// `raw-string := 'r' '#'^n '"' ... '"' '#'^n`, closed by the first quote
/// that `n` hashes follow; nothing in it is an escape. An unclosed raw
/// string fails at the end of the text.
pub open spec fn spec_raw_string(s: Seq<char>, pos: int) -> Attempt<Seq<char>> {
    if char_at(s, pos, 'r') {
        let quote = hashes_end(s, pos + 1);
        let hashes = quote - (pos + 1);
        if char_at(s, quote, '"') {
            let close = raw_close(s, quote + 1, hashes);
            if close < s.len() {
                matched(s.subrange(quote + 1, close), close + 1 + hashes)
            } else {
                refused(s.len() as int)
            }
        } else {
            refused(quote)
        }
    } else {
        refused(pos)
    }
}

/// The run of identifier characters ends inside the text.
pub proof fn lemma_identifier_end_bounds(s: Seq<char>, from: int)
    requires
        0 <= from <= s.len(),
    ensures
        from <= identifier_end(s, from) <= s.len(),
    decreases s.len() - from,
{
    if from < s.len() && is_identifier_char(s[from]) {
        lemma_identifier_end_bounds(s, from + 1);
    }
}

/// The run of hashes ends inside the text.
pub proof fn lemma_hashes_end_bounds(s: Seq<char>, from: int)
    requires
        0 <= from <= s.len(),
    ensures
        from <= hashes_end(s, from) <= s.len(),
    decreases s.len() - from,
{
    if char_at(s, from, '#') {
        lemma_hashes_end_bounds(s, from + 1);
    }
}

/// A matched string body ends behind its start and inside the text.
pub proof fn lemma_string_body_bounds(s: Seq<char>, from: int)
    requires
        0 <= from <= s.len(),
        spec_string_body(s, from).is_match(),
    ensures
        from < spec_string_body(s, from).next() <= s.len(),
    decreases s.len() - from,
{
    if s[from] == '"' {
    } else if s[from] == '\\' {
        lemma_string_body_bounds(s, from + 2);
    } else {
        lemma_string_body_bounds(s, from + 1);
    }
}

/// A matched quoted string ends behind its start and inside the text.
pub proof fn lemma_string_advances(s: Seq<char>, pos: int)
    requires
        spec_string(s, pos).is_match(),
    ensures
        pos < spec_string(s, pos).next() <= s.len(),
{
    lemma_string_body_bounds(s, pos + 1);
}

/// A matched identifier ends behind its start and inside the text.
pub proof fn lemma_identifier_advances(s: Seq<char>, pos: int)
    requires
        spec_identifier(s, pos).is_match(),
    ensures
        pos < spec_identifier(s, pos).next() <= s.len(),
{
    if spec_bare_identifier(s, pos).is_match() {
        lemma_identifier_end_bounds(s, pos + 1);
    } else {
        lemma_string_advances(s, pos);
    }
}

/// The first closing position behind `from` lies inside the text, and the
/// hashes that close the string do too.
pub proof fn lemma_raw_close_bounds(s: Seq<char>, from: int, hashes: int)
    requires
        0 <= from <= s.len(),
        0 <= hashes,
    ensures
        from <= raw_close(s, from, hashes) <= s.len(),
        raw_close(s, from, hashes) < s.len() ==> raw_close(s, from, hashes) + 1 + hashes
            <= s.len(),
    decreases s.len() - from,
{
    if from < s.len() {
        if closes_at(s, from, hashes) {
            lemma_hashes_end_bounds(s, from + 1);
        } else {
            lemma_raw_close_bounds(s, from + 1, hashes);
        }
    }
}

/// A raw string is closed by the first quote that enough hashes follow:
/// the string closes where `raw_close` says, if that lies inside the text,
/// and nowhere before it.
pub proof fn lemma_raw_string_closes_at_first(s: Seq<char>, from: int, hashes: int)
    requires
        0 <= from <= s.len(),
        0 <= hashes,
    ensures
        ({
            let close = raw_close(s, from, hashes);
            &&& close < s.len() ==> closes_at(s, close, hashes)
            &&& forall|i: int| from <= i < close ==> !#[trigger] closes_at(s, i, hashes)
        }),
    decreases s.len() - from,
{
    if from < s.len() && !closes_at(s, from, hashes) {
        lemma_raw_string_closes_at_first(s, from + 1, hashes);
    }
    lemma_raw_close_bounds(s, from, hashes);
}

/// The hashes of a run are hashes, and the run ends where the first other
/// character stands.
pub proof fn lemma_hashes_end_is_run(s: Seq<char>, from: int)
    requires
        0 <= from <= s.len(),
    ensures
        forall|i: int| from <= i < hashes_end(s, from) ==> #[trigger] char_at(s, i, '#'),
        !char_at(s, hashes_end(s, from), '#'),
    decreases s.len() - from,
{
    if char_at(s, from, '#') {
        lemma_hashes_end_is_run(s, from + 1);
    }
}

/// A matched raw string ends behind its start and inside the text.
pub proof fn lemma_raw_string_advances(s: Seq<char>, pos: int)
    requires
        spec_raw_string(s, pos).is_match(),
    ensures
        pos < spec_raw_string(s, pos).next() <= s.len(),
{
    lemma_hashes_end_bounds(s, pos + 1);
    let quote = hashes_end(s, pos + 1);
    lemma_raw_close_bounds(s, quote + 1, quote - (pos + 1));
}

/// The body of a quoted string stays inside the text.
pub proof fn lemma_string_body_within(s: Seq<char>, from: int)
    requires
        0 <= from <= s.len(),
    ensures
        spec_string_body(s, from).within(from, s.len() as int),
    decreases s.len() - from,
{
    if from < s.len() && s[from] != '"' {
        if s[from] == '\\' {
            if from + 1 < s.len() && unescape(s[from + 1]) is Some {
                lemma_string_body_within(s, from + 2);
            }
        } else {
            lemma_string_body_within(s, from + 1);
        }
    }
}

/// The rules for identifiers and strings stay inside the text.
pub proof fn lemma_strings_within(s: Seq<char>, pos: int)
    requires
        0 <= pos <= s.len(),
    ensures
        spec_bare_identifier(s, pos).within(pos, s.len() as int),
        spec_string(s, pos).within(pos, s.len() as int),
        spec_identifier(s, pos).within(pos, s.len() as int),
        spec_raw_string(s, pos).within(pos, s.len() as int),
{
    if pos < s.len() {
        lemma_identifier_end_bounds(s, pos + 1);
        lemma_string_body_within(s, pos + 1);
        lemma_hashes_end_bounds(s, pos + 1);
    }
    if spec_raw_string(s, pos).is_match() {
        lemma_raw_string_advances(s, pos);
    }
}

/// Whether `c` may begin a bare identifier.
pub fn identifier_start(c: char) -> (b: bool)
    ensures
        b == is_identifier_start(c),
{
    ('a' <= c && c <= 'z') || ('A' <= c && c <= 'Z') || c == '_'
}

/// Whether `c` may follow the first character of a bare identifier.
pub fn identifier_char(c: char) -> (b: bool)
    ensures
        b == is_identifier_char(c),
{
    ('a' <= c && c <= 'z') || ('A' <= c && c <= 'Z') || ('0' <= c && c <= '9') || c == '~' || c
        == '!' || c == '@' || c == '#' || c == '$' || c == '%' || c == '^' || c == '&' || c == '*'
        || c == '-' || c == '_' || c == '+' || c == '.' || c == '/' || c == ':' || c == '<' || c
        == '>' || c == '?'
}

/// Matches a bare identifier at `pos`.
pub fn bare_identifier(input: &[char], pos: usize) -> (r: Parsed<String>)
    requires
        pos <= input@.len(),
    ensures
        r.model() == spec_bare_identifier(input@, pos as int),
{
    let len = input.len();
    if pos >= len || !identifier_start(input[pos]) {
        return Parsed::refused(pos);
    }
    let mut i: usize = pos + 1;
    while i < len && identifier_char(input[i])
        invariant
            len == input@.len(),
            pos < i <= len,
            identifier_end(input@, i as int) == identifier_end(input@, pos + 1),
        decreases len - i,
    {
        i += 1;
    }
    Parsed::matched(string_of(input, pos, i), i)
}

/// The character that `\` and `c` stand for, if the pair is an escape.
pub fn escaped(c: char) -> (r: Option<char>)
    ensures
        r == unescape(c),
{
    if c == 'n' {
        Some('\n')
    } else if c == 'r' {
        Some('\r')
    } else if c == 't' {
        Some('\t')
    } else if c == '\\' {
        Some('\\')
    } else if c == '"' {
        Some('"')
    } else {
        None
    }
}

/// Matches a quoted string at `pos` and decodes its escapes.
pub fn string(input: &[char], pos: usize) -> (r: Parsed<String>)
    requires
        pos <= input@.len(),
    ensures
        r.model() == spec_string(input@, pos as int),
{
    if !is_at(input, pos, '"') {
        return Parsed::refused(pos);
    }
    let len = input.len();
    let ghost s = input@;
    let mut text = String::new();
    let mut i: usize = pos + 1;
    proof {
        let rest = spec_string_body(s, pos + 1);
        if rest.is_match() {
            assert(text@ + rest.value() =~= rest.value());
        }
    }
    while i < len
        invariant
            len == s.len(),
            s == input@,
            pos < i <= len,
            char_at(s, pos as int, '"'),
            prepend(text@, spec_string_body(s, i as int)) == spec_string_body(s, pos + 1),
        decreases len - i,
    {
        let c = input[i];
        if c == '"' {
            proof {
                assert(text@ + Seq::<char>::empty() =~= text@);
            }
            return Parsed::matched(text, i + 1);
        }
        if c == '\\' {
            if i + 1 >= len {
                return Parsed::refused(i + 1);
            }
            match escaped(input[i + 1]) {
                None => {
                    return Parsed::refused(i + 1);
                },
                Some(d) => {
                    proof {
                        let rest = spec_string_body(s, i + 2);
                        if rest.is_match() {
                            assert(text@ + (seq![d] + rest.value()) =~= text@.push(d)
                                + rest.value());
                        }
                    }
                    text.push(d);
                    i += 2;
                },
            }
        } else {
            proof {
                let rest = spec_string_body(s, i + 1);
                if rest.is_match() {
                    assert(text@ + (seq![c] + rest.value()) =~= text@.push(c) + rest.value());
                }
            }
            text.push(c);
            i += 1;
        }
    }
    Parsed::refused(len)
}

/// Matches an identifier at `pos`: a bare one, or else a quoted string.
pub fn identifier(input: &[char], pos: usize) -> (r: Parsed<String>)
    requires
        pos <= input@.len(),
    ensures
        r.model() == spec_identifier(input@, pos as int),
{
    let bare = bare_identifier(input, pos);
    if bare.result.is_some() {
        bare
    } else {
        string(input, pos)
    }
}

/// Whether at least `count` hashes stand at `from`.
pub fn hashes_reach(input: &[char], from: usize, count: usize) -> (b: bool)
    requires
        from <= input@.len(),
    ensures
        b == (hashes_end(input@, from as int) >= from + count),
{
    let len = input.len();
    let mut k: usize = 0;
    while k < count
        invariant
            len == input@.len(),
            from <= len,
            k <= count,
            from + k <= len,
            hashes_end(input@, from + k) == hashes_end(input@, from as int),
        decreases count - k,
    {
        if from + k >= len || input[from + k] != '#' {
            return false;
        }
        k += 1;
    }
    proof {
        lemma_hashes_end_bounds(input@, from + k);
    }
    true
}

/// Matches a raw string at `pos`.
pub fn raw_string(input: &[char], pos: usize) -> (r: Parsed<String>)
    requires
        pos <= input@.len(),
    ensures
        r.model() == spec_raw_string(input@, pos as int),
{
    if !is_at(input, pos, 'r') {
        return Parsed::refused(pos);
    }
    let len = input.len();
    let ghost s = input@;
    let mut quote: usize = pos + 1;
    while quote < len && input[quote] == '#'
        invariant
            len == s.len(),
            s == input@,
            pos < quote <= len,
            hashes_end(s, quote as int) == hashes_end(s, pos + 1),
        decreases len - quote,
    {
        quote += 1;
    }
    let hashes = quote - (pos + 1);
    if !is_at(input, quote, '"') {
        return Parsed::refused(quote);
    }
    let mut i: usize = quote + 1;
    while i < len
        invariant
            len == s.len(),
            s == input@,
            quote < i <= len,
            char_at(s, pos as int, 'r'),
            char_at(s, quote as int, '"'),
            quote == hashes_end(s, pos + 1),
            hashes == quote - (pos + 1),
            raw_close(s, i as int, hashes as int) == raw_close(s, quote + 1, hashes as int),
        decreases len - i,
    {
        if input[i] == '"' && hashes_reach(input, i + 1, hashes) {
            proof {
                lemma_hashes_end_bounds(s, i + 1);
            }
            return Parsed::matched(string_of(input, quote + 1, i), i + 1 + hashes);
        }
        i += 1;
    }
    Parsed::refused(len)
}

} // verus!
