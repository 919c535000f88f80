//! Lexical primitives: line ends, blanks, comments and line continuations.

use vstd::prelude::*;
use crate::attempt::{
    keep_deeper, matched, matched_after, refused, refused_after, Attempt, Parsed,
};
use crate::error::deeper;

verus! {

/// Whether the text holds `c` at position `i`.
pub open spec fn char_at(s: Seq<char>, i: int, c: char) -> bool {
    0 <= i < s.len() && s[i] == c
}

/// `newline := "\r\n" | "\n"`
pub open spec fn spec_newline(s: Seq<char>, pos: int) -> Attempt<()> {
    if char_at(s, pos, '\r') && char_at(s, pos + 1, '\n') {
        matched((), pos + 2)
    } else if char_at(s, pos, '\n') {
        matched((), pos + 1)
    } else {
        refused(pos)
    }
}

/// The first position at or behind `from` where `*/` begins, or the length
/// of the text if there is none.
pub open spec fn comment_close(s: Seq<char>, from: int) -> int
    decreases s.len() - from,
{
    if from < 0 || from + 1 >= s.len() {
        s.len() as int
    } else if s[from] == '*' && s[from + 1] == '/' {
        from
    } else {
        comment_close(s, from + 1)
    }
}

/// `multi-line-comment := "/*" ... "*/"`, closed by the first `*/`. An
/// unclosed comment fails at the end of the text.
pub open spec fn spec_multi_line_comment(s: Seq<char>, pos: int) -> Attempt<()> {
    if char_at(s, pos, '/') && char_at(s, pos + 1, '*') {
        let close = comment_close(s, pos + 2);
        if close < s.len() {
            matched((), close + 2)
        } else {
            refused(s.len() as int)
        }
    } else {
        refused(pos)
    }
}

/// `ws := ' ' | '\t' | multi-line-comment`
pub open spec fn spec_whitespace(s: Seq<char>, pos: int) -> Attempt<()> {
    if char_at(s, pos, ' ') || char_at(s, pos, '\t') {
        matched((), pos + 1)
    } else {
        spec_multi_line_comment(s, pos)
    }
}

/// `ws*`: always a match. Its failure is that of the unit that ended the run.
pub open spec fn spec_whitespaces(s: Seq<char>, pos: int) -> Attempt<()>
    decreases s.len() - pos,
{
    let w = spec_whitespace(s, pos);
    if w.is_match() {
        proof {
            lemma_whitespace_advances(s, pos);
        }
        spec_whitespaces(s, w.next())
    } else {
        matched_after((), pos, w.deepest)
    }
}

/// The first position at or behind `from` where a line end begins, or the
/// length of the text if there is none.
pub open spec fn line_end(s: Seq<char>, from: int) -> int
    decreases s.len() - from,
{
    if from < 0 || from >= s.len() {
        s.len() as int
    } else if spec_newline(s, from).is_match() {
        from
    } else {
        line_end(s, from + 1)
    }
}

/// `single-line-comment := "//" ... (newline | end of text)`: the comment
/// runs up to the first line end and takes it along.
pub open spec fn spec_single_line_comment(s: Seq<char>, pos: int) -> Attempt<()> {
    if char_at(s, pos, '/') && char_at(s, pos + 1, '/') {
        let end = line_end(s, pos + 2);
        let n = spec_newline(s, end);
        if n.is_match() {
            n
        } else {
            matched((), end)
        }
    } else {
        refused(pos)
    }
}

/// `escline := '\' ws* (single-line-comment | newline)`
pub open spec fn spec_escline(s: Seq<char>, pos: int) -> Attempt<()> {
    if char_at(s, pos, '\\') {
        let w = spec_whitespaces(s, pos + 1);
        let c = spec_single_line_comment(s, w.next());
        let n = spec_newline(s, w.next());
        if c.is_match() {
            c
        } else if n.is_match() {
            n
        } else {
            refused_after(w.deepest)
        }
    } else {
        refused(pos)
    }
}

/// `node-space := ws* escline ws* | ws+`
pub open spec fn spec_node_space(s: Seq<char>, pos: int) -> Attempt<()> {
    let w = spec_whitespaces(s, pos);
    let e = spec_escline(s, w.next());
    if e.is_match() {
        spec_whitespaces(s, e.next())
    } else if w.next() > pos {
        matched_after((), w.next(), deeper(w.deepest, e.deepest))
    } else {
        refused_after(deeper(w.deepest, e.deepest))
    }
}

/// `linespace := newline | ws | single-line-comment`
pub open spec fn spec_linespace(s: Seq<char>, pos: int) -> Attempt<()> {
    let n = spec_newline(s, pos);
    let w = spec_whitespace(s, pos);
    let c = spec_single_line_comment(s, pos);
    if n.is_match() {
        n
    } else if w.is_match() {
        w
    } else if c.is_match() {
        c
    } else {
        refused_after(w.deepest)
    }
}

/// `linespace*`: always a match. Its failure is that of the unit that ended
/// the run.
pub open spec fn spec_linespaces(s: Seq<char>, pos: int) -> Attempt<()>
    decreases s.len() - pos,
{
    let l = spec_linespace(s, pos);
    if l.is_match() {
        proof {
            lemma_linespace_advances(s, pos);
        }
        spec_linespaces(s, l.next())
    } else {
        matched_after((), pos, l.deepest)
    }
}

/// Whether `input` holds `c` at `i`.
pub fn is_at(input: &[char], i: usize, c: char) -> (b: bool)
    ensures
        b == char_at(input@, i as int, c),
        b ==> i < usize::MAX,
{
    i < input.len() && input[i] == c
}

/// Whether `input` holds `a` at `i` and `b` right behind it.
pub fn is_pair_at(input: &[char], i: usize, a: char, b: char) -> (r: bool)
    ensures
        r == (char_at(input@, i as int, a) && char_at(input@, i + 1, b)),
        r ==> i + 1 < usize::MAX,
{
    i < input.len() && input[i] == a && i + 1 < input.len() && input[i + 1] == b
}

/// Matches one line end at `pos`.
pub fn newline(input: &[char], pos: usize) -> (r: Parsed<()>)
    requires
        pos <= input@.len(),
    ensures
        r.model() == spec_newline(input@, pos as int),
{
    if is_pair_at(input, pos, '\r', '\n') {
        Parsed::matched((), pos + 2)
    } else if is_at(input, pos, '\n') {
        Parsed::matched((), pos + 1)
    } else {
        Parsed::refused(pos)
    }
}

/// Matches one comment of the form `/* ... */` at `pos`.
pub fn multi_line_comment(input: &[char], pos: usize) -> (r: Parsed<()>)
    requires
        pos <= input@.len(),
    ensures
        r.model() == spec_multi_line_comment(input@, pos as int),
{
    if !is_pair_at(input, pos, '/', '*') {
        return Parsed::refused(pos);
    }
    let len = input.len();
    let mut i: usize = pos + 2;
    while len - i > 1
        invariant
            len == input@.len(),
            char_at(input@, pos as int, '/') && char_at(input@, pos + 1, '*'),
            pos + 2 <= i <= len,
            comment_close(input@, i as int) == comment_close(input@, pos + 2),
        decreases len - i,
    {
        if input[i] == '*' && input[i + 1] == '/' {
            return Parsed::matched((), i + 2);
        }
        i += 1;
    }
    Parsed::refused(len)
}

/// Matches one blank, tab or `/* ... */` comment at `pos`.
pub fn whitespace(input: &[char], pos: usize) -> (r: Parsed<()>)
    requires
        pos <= input@.len(),
    ensures
        r.model() == spec_whitespace(input@, pos as int),
{
    if is_at(input, pos, ' ') || is_at(input, pos, '\t') {
        Parsed::matched((), pos + 1)
    } else {
        multi_line_comment(input, pos)
    }
}

/// A matched unit ends behind its start and inside the text.
pub proof fn lemma_whitespace_advances(s: Seq<char>, pos: int)
    requires
        spec_whitespace(s, pos).is_match(),
    ensures
        pos < spec_whitespace(s, pos).next() <= s.len(),
{
    if char_at(s, pos, '/') && char_at(s, pos + 1, '*') {
        lemma_comment_close_bounds(s, pos + 2);
    }
}

/// Matches as many whitespace units as follow one another at `pos`.
pub fn whitespaces(input: &[char], pos: usize) -> (r: Parsed<()>)
    requires
        pos <= input@.len(),
    ensures
        r.model() == spec_whitespaces(input@, pos as int),
        r.result is Some,
        pos <= (r.result->0).1 <= input@.len(),
{
    let mut i: usize = pos;
    loop
        invariant
            pos <= i <= input@.len(),
            spec_whitespaces(input@, i as int) == spec_whitespaces(input@, pos as int),
        decreases input@.len() - i,
    {
        let w = whitespace(input, i);
        match w.result {
            Some((_, next)) => {
                proof {
                    lemma_whitespace_advances(input@, i as int);
                }
                i = next;
            },
            None => {
                return Parsed::matched_after((), i, w.deepest);
            },
        }
    }
}

/// Matches one `//` comment at `pos`, with the line end that closes it.
pub fn single_line_comment(input: &[char], pos: usize) -> (r: Parsed<()>)
    requires
        pos <= input@.len(),
    ensures
        r.model() == spec_single_line_comment(input@, pos as int),
{
    if !is_pair_at(input, pos, '/', '/') {
        return Parsed::refused(pos);
    }
    let len = input.len();
    let mut i: usize = pos + 2;
    while i < len
        invariant
            len == input@.len(),
            char_at(input@, pos as int, '/') && char_at(input@, pos + 1, '/'),
            pos + 2 <= i <= len,
            line_end(input@, i as int) == line_end(input@, pos + 2),
        decreases len - i,
    {
        let n = newline(input, i);
        if n.result.is_some() {
            return n;
        }
        i += 1;
    }
    Parsed::matched((), len)
}

/// Matches one line continuation at `pos`.
pub fn escline(input: &[char], pos: usize) -> (r: Parsed<()>)
    requires
        pos <= input@.len(),
    ensures
        r.model() == spec_escline(input@, pos as int),
{
    if !is_at(input, pos, '\\') {
        return Parsed::refused(pos);
    }
    let w = whitespaces(input, pos + 1);
    let at = w.result.unwrap().1;
    let c = single_line_comment(input, at);
    if c.result.is_some() {
        return c;
    }
    let n = newline(input, at);
    if n.result.is_some() {
        return n;
    }
    Parsed::refused_after(w.deepest)
}

/// Matches the space between the parts of a node at `pos`.
pub fn node_space(input: &[char], pos: usize) -> (r: Parsed<()>)
    requires
        pos <= input@.len(),
    ensures
        r.model() == spec_node_space(input@, pos as int),
{
    let w = whitespaces(input, pos);
    let at = w.result.unwrap().1;
    let e = escline(input, at);
    match e.result {
        Some((_, next)) => {
            proof {
                lemma_escline_advances(input@, at as int);
            }
            whitespaces(input, next)
        },
        None => {
            let met = keep_deeper(w.deepest, e.deepest);
            if at > pos {
                Parsed::matched_after((), at, met)
            } else {
                Parsed::refused_after(met)
            }
        },
    }
}

/// Matches one unit of the space between nodes at `pos`.
pub fn linespace(input: &[char], pos: usize) -> (r: Parsed<()>)
    requires
        pos <= input@.len(),
    ensures
        r.model() == spec_linespace(input@, pos as int),
{
    let n = newline(input, pos);
    if n.result.is_some() {
        return n;
    }
    let w = whitespace(input, pos);
    if w.result.is_some() {
        return w;
    }
    let c = single_line_comment(input, pos);
    if c.result.is_some() {
        return c;
    }
    Parsed::refused_after(w.deepest)
}

/// Matches as many units of the space between nodes as follow one another
/// at `pos`.
pub fn linespaces(input: &[char], pos: usize) -> (r: Parsed<()>)
    requires
        pos <= input@.len(),
    ensures
        r.model() == spec_linespaces(input@, pos as int),
        r.result is Some,
        pos <= (r.result->0).1 <= input@.len(),
{
    let mut i: usize = pos;
    loop
        invariant
            pos <= i <= input@.len(),
            spec_linespaces(input@, i as int) == spec_linespaces(input@, pos as int),
        decreases input@.len() - i,
    {
        let l = linespace(input, i);
        match l.result {
            Some((_, next)) => {
                proof {
                    lemma_linespace_advances(input@, i as int);
                }
                i = next;
            },
            None => {
                return Parsed::matched_after((), i, l.deepest);
            },
        }
    }
}

/// The first `*/` behind `from`, if there is one, lies inside the text.
pub proof fn lemma_comment_close_bounds(s: Seq<char>, from: int)
    requires
        0 <= from <= s.len(),
    ensures
        from <= comment_close(s, from) <= s.len(),
        comment_close(s, from) < s.len() ==> comment_close(s, from) + 2 <= s.len(),
    decreases s.len() - from,
{
    if from + 1 < s.len() && !(s[from] == '*' && s[from + 1] == '/') {
        lemma_comment_close_bounds(s, from + 1);
    }
}

/// A comment is closed by the first `*/`: one begins where `comment_close`
/// says, if that lies inside the text, and none begins before it.
pub proof fn lemma_comment_closes_at_first(s: Seq<char>, from: int)
    requires
        0 <= from <= s.len(),
    ensures
        ({
            let close = comment_close(s, from);
            &&& close < s.len() ==> char_at(s, close, '*') && char_at(s, close + 1, '/')
            &&& forall|i: int|
                from <= i < close ==> !(char_at(s, i, '*') && #[trigger] char_at(s, i + 1, '/'))
        }),
    decreases s.len() - from,
{
    if from + 1 < s.len() && !(s[from] == '*' && s[from + 1] == '/') {
        lemma_comment_closes_at_first(s, from + 1);
    }
    lemma_comment_close_bounds(s, from);
}

/// A `//` comment runs to the first line end: one begins where `line_end`
/// says, if that lies inside the text, and none begins before it.
pub proof fn lemma_line_ends_at_first(s: Seq<char>, from: int)
    requires
        0 <= from <= s.len(),
    ensures
        ({
            let end = line_end(s, from);
            &&& end < s.len() ==> spec_newline(s, end).is_match()
            &&& forall|i: int| from <= i < end ==> !(#[trigger] spec_newline(s, i)).is_match()
        }),
    decreases s.len() - from,
{
    if from < s.len() && !spec_newline(s, from).is_match() {
        lemma_line_ends_at_first(s, from + 1);
    }
    lemma_line_end_bounds(s, from);
}

/// The first line end behind `from` lies inside the text.
pub proof fn lemma_line_end_bounds(s: Seq<char>, from: int)
    requires
        0 <= from <= s.len(),
    ensures
        from <= line_end(s, from) <= s.len(),
        line_end(s, from) < s.len() ==> spec_newline(s, line_end(s, from)).is_match(),
    decreases s.len() - from,
{
    if from < s.len() && !spec_newline(s, from).is_match() {
        lemma_line_end_bounds(s, from + 1);
    }
}

/// A run of whitespace ends inside the text, at or behind its start.
pub proof fn lemma_whitespaces_bounds(s: Seq<char>, pos: int)
    requires
        0 <= pos <= s.len(),
    ensures
        spec_whitespaces(s, pos).is_match(),
        pos <= spec_whitespaces(s, pos).next() <= s.len(),
    decreases s.len() - pos,
{
    let w = spec_whitespace(s, pos);
    if w.is_match() {
        lemma_whitespace_advances(s, pos);
        lemma_whitespaces_bounds(s, w.next());
    }
}

/// A matched comment ends behind its start and inside the text.
pub proof fn lemma_single_line_comment_advances(s: Seq<char>, pos: int)
    requires
        spec_single_line_comment(s, pos).is_match(),
    ensures
        pos < spec_single_line_comment(s, pos).next() <= s.len(),
{
    lemma_line_end_bounds(s, pos + 2);
}

/// A matched line continuation ends behind its start and inside the text.
pub proof fn lemma_escline_advances(s: Seq<char>, pos: int)
    requires
        spec_escline(s, pos).is_match(),
    ensures
        pos < spec_escline(s, pos).next() <= s.len(),
{
    lemma_whitespaces_bounds(s, pos + 1);
    let w = spec_whitespaces(s, pos + 1);
    if spec_single_line_comment(s, w.next()).is_match() {
        lemma_single_line_comment_advances(s, w.next());
    }
}

/// Matched node space ends behind its start and inside the text.
pub proof fn lemma_node_space_advances(s: Seq<char>, pos: int)
    requires
        0 <= pos <= s.len(),
        spec_node_space(s, pos).is_match(),
    ensures
        pos < spec_node_space(s, pos).next() <= s.len(),
{
    lemma_whitespaces_bounds(s, pos);
    let w = spec_whitespaces(s, pos);
    let e = spec_escline(s, w.next());
    if e.is_match() {
        lemma_escline_advances(s, w.next());
        lemma_whitespaces_bounds(s, e.next());
    }
}

/// A matched unit of line space ends behind its start and inside the text.
pub proof fn lemma_linespace_advances(s: Seq<char>, pos: int)
    requires
        spec_linespace(s, pos).is_match(),
    ensures
        pos < spec_linespace(s, pos).next() <= s.len(),
{
    if spec_newline(s, pos).is_match() {
    } else if spec_whitespace(s, pos).is_match() {
        lemma_whitespace_advances(s, pos);
    } else {
        lemma_single_line_comment_advances(s, pos);
    }
}

/// A run of line space ends inside the text, at or behind its start.
pub proof fn lemma_linespaces_bounds(s: Seq<char>, pos: int)
    requires
        0 <= pos <= s.len(),
    ensures
        spec_linespaces(s, pos).is_match(),
        pos <= spec_linespaces(s, pos).next() <= s.len(),
    decreases s.len() - pos,
{
    let l = spec_linespace(s, pos);
    if l.is_match() {
        lemma_linespace_advances(s, pos);
        lemma_linespaces_bounds(s, l.next());
    }
}

/// The lexical rules stay inside the text.
pub proof fn lemma_space_within(s: Seq<char>, pos: int)
    requires
        0 <= pos <= s.len(),
    ensures
        spec_newline(s, pos).within(pos, s.len() as int),
        spec_multi_line_comment(s, pos).within(pos, s.len() as int),
        spec_whitespace(s, pos).within(pos, s.len() as int),
        spec_single_line_comment(s, pos).within(pos, s.len() as int),
        spec_linespace(s, pos).within(pos, s.len() as int),
{
    if spec_multi_line_comment(s, pos).is_match() {
        lemma_comment_close_bounds(s, pos + 2);
    }
    if spec_single_line_comment(s, pos).is_match() {
        lemma_single_line_comment_advances(s, pos);
    }
}

/// A run of whitespace stays inside the text.
pub proof fn lemma_whitespaces_within(s: Seq<char>, pos: int)
    requires
        0 <= pos <= s.len(),
    ensures
        spec_whitespaces(s, pos).within(pos, s.len() as int),
        spec_whitespaces(s, pos).deepest is Some,
        spec_whitespaces(s, pos).is_match(),
    decreases s.len() - pos,
{
    lemma_space_within(s, pos);
    let w = spec_whitespace(s, pos);
    if w.is_match() {
        lemma_whitespace_advances(s, pos);
        lemma_whitespaces_within(s, w.next());
    }
}

/// A run of line space stays inside the text.
pub proof fn lemma_linespaces_within(s: Seq<char>, pos: int)
    requires
        0 <= pos <= s.len(),
    ensures
        spec_linespaces(s, pos).within(pos, s.len() as int),
        spec_linespaces(s, pos).deepest is Some,
        spec_linespaces(s, pos).is_match(),
    decreases s.len() - pos,
{
    lemma_space_within(s, pos);
    let l = spec_linespace(s, pos);
    if l.is_match() {
        lemma_linespace_advances(s, pos);
        lemma_linespaces_within(s, l.next());
    }
}

/// A line continuation stays inside the text.
pub proof fn lemma_escline_within(s: Seq<char>, pos: int)
    requires
        0 <= pos <= s.len(),
    ensures
        spec_escline(s, pos).within(pos, s.len() as int),
{
    if char_at(s, pos, '\\') {
        lemma_whitespaces_within(s, pos + 1);
        lemma_space_within(s, spec_whitespaces(s, pos + 1).next());
    }
}

/// Node space stays inside the text.
pub proof fn lemma_node_space_within(s: Seq<char>, pos: int)
    requires
        0 <= pos <= s.len(),
    ensures
        spec_node_space(s, pos).within(pos, s.len() as int),
{
    lemma_whitespaces_within(s, pos);
    let w = spec_whitespaces(s, pos);
    lemma_escline_within(s, w.next());
    let e = spec_escline(s, w.next());
    if e.is_match() {
        lemma_whitespaces_within(s, e.next());
    }
}

} // verus!
