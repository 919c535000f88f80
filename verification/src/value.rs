//! The values of a node: strings, numbers, booleans and `null`.

use vstd::prelude::*;
use crate::attempt::{after, keep_deeper, matched, refused, Attempt, Parsed};
use crate::error::deeper;
use crate::node::{KdlNodeValue, ValueModel};
use crate::number::{
    binary, float, hexadecimal, integer, lemma_float_advances, lemma_integer_advances,
    lemma_number_forms_within, lemma_radix_advances, octal, spec_binary, spec_float, spec_hexadecimal, spec_integer,
    spec_octal,
};
use crate::space::{char_at, is_at};
use crate::strings::{
    lemma_raw_string_advances, lemma_string_advances, lemma_strings_within, raw_string, spec_raw_string, spec_string,
    string,
};

verus! {

/// `boolean := "true" | "false"`
pub open spec fn spec_boolean(s: Seq<char>, pos: int) -> Attempt<ValueModel> {
    if char_at(s, pos, 't') && char_at(s, pos + 1, 'r') && char_at(s, pos + 2, 'u') && char_at(
        s,
        pos + 3,
        'e',
    ) {
        matched(ValueModel::Boolean(true), pos + 4)
    } else if char_at(s, pos, 'f') && char_at(s, pos + 1, 'a') && char_at(s, pos + 2, 'l')
        && char_at(s, pos + 3, 's') && char_at(s, pos + 4, 'e') {
        matched(ValueModel::Boolean(false), pos + 5)
    } else {
        refused(pos)
    }
}

/// `"null"`
pub open spec fn spec_null(s: Seq<char>, pos: int) -> Attempt<ValueModel> {
    if char_at(s, pos, 'n') && char_at(s, pos + 1, 'u') && char_at(s, pos + 2, 'l') && char_at(
        s,
        pos + 3,
        'l',
    ) {
        matched(ValueModel::Null, pos + 4)
    } else {
        refused(pos)
    }
}

/// An integer attempt as an attempt at a value.
pub open spec fn as_int(a: Attempt<i64>) -> Attempt<ValueModel> {
    a.map(|v: i64| ValueModel::Int(v))
}

/// `number := hex | octal | binary | float | integer`. The forms with a
/// prefix go first, so that their `0` is not taken for a decimal number; a
/// float goes before an integer, so that its whole part is not taken for
/// one. A literal with a prefix whose digits denote too large a number is
/// not read in another way.
pub open spec fn spec_number(s: Seq<char>, pos: int) -> Attempt<ValueModel> {
    let h = spec_hexadecimal(s, pos);
    let o = spec_octal(s, pos);
    let b = spec_binary(s, pos);
    let f = spec_float(s, pos);
    let i = spec_integer(s, pos);
    if h.is_match() || h.is_malformed() {
        as_int(h)
    } else if o.is_match() || o.is_malformed() {
        as_int(o).after(h.deepest)
    } else if b.is_match() || b.is_malformed() {
        as_int(b).after(deeper(h.deepest, o.deepest))
    } else if f.is_match() {
        f.map(|t: Seq<char>| ValueModel::Float(t)).after(
            deeper(deeper(h.deepest, o.deepest), b.deepest),
        )
    } else {
        as_int(i).after(deeper(deeper(deeper(h.deepest, o.deepest), b.deepest), f.deepest))
    }
}

/// `value := string | raw-string | number | boolean | "null"`, the first
/// that matches.
pub open spec fn spec_node_value(s: Seq<char>, pos: int) -> Attempt<ValueModel> {
    let q = spec_string(s, pos);
    let r = spec_raw_string(s, pos);
    let n = spec_number(s, pos);
    let b = spec_boolean(s, pos);
    let z = spec_null(s, pos);
    if q.is_match() {
        q.map(|t: Seq<char>| ValueModel::String(t))
    } else if r.is_match() {
        r.map(|t: Seq<char>| ValueModel::String(t)).after(q.deepest)
    } else if n.is_match() {
        n.after(deeper(q.deepest, r.deepest))
    } else if b.is_match() {
        b.after(deeper(deeper(q.deepest, r.deepest), n.deepest))
    } else {
        z.after(deeper(deeper(deeper(q.deepest, r.deepest), n.deepest), b.deepest))
    }
}

/// A matched number ends behind its start and inside the text.
pub proof fn lemma_number_advances(s: Seq<char>, pos: int)
    requires
        0 <= pos,
        spec_number(s, pos).is_match(),
    ensures
        pos < spec_number(s, pos).next() <= s.len(),
{
    let h = spec_hexadecimal(s, pos);
    let o = spec_octal(s, pos);
    let b = spec_binary(s, pos);
    if h.is_match() || h.is_malformed() {
        lemma_radix_advances(s, pos, 'x', 'X', 16);
    } else if o.is_match() || o.is_malformed() {
        lemma_radix_advances(s, pos, 'o', 'O', 8);
    } else if b.is_match() || b.is_malformed() {
        lemma_radix_advances(s, pos, 'b', 'B', 2);
    } else if spec_float(s, pos).is_match() {
        lemma_float_advances(s, pos);
    } else {
        lemma_integer_advances(s, pos);
    }
}

/// A matched value ends behind its start and inside the text.
pub proof fn lemma_node_value_advances(s: Seq<char>, pos: int)
    requires
        0 <= pos,
        spec_node_value(s, pos).is_match(),
    ensures
        pos < spec_node_value(s, pos).next() <= s.len(),
{
    if spec_string(s, pos).is_match() {
        lemma_string_advances(s, pos);
    } else if spec_raw_string(s, pos).is_match() {
        lemma_raw_string_advances(s, pos);
    } else if spec_number(s, pos).is_match() {
        lemma_number_advances(s, pos);
    }
}

/// The rules for values stay inside the text.
pub proof fn lemma_values_within(s: Seq<char>, pos: int)
    requires
        0 <= pos <= s.len(),
    ensures
        spec_boolean(s, pos).within(pos, s.len() as int),
        spec_null(s, pos).within(pos, s.len() as int),
        spec_number(s, pos).within(pos, s.len() as int),
        spec_node_value(s, pos).within(pos, s.len() as int),
{
    lemma_number_forms_within(s, pos);
    lemma_strings_within(s, pos);
}

/// Matches `true` or `false` at `pos`.
pub fn boolean(input: &[char], pos: usize) -> (r: Parsed<KdlNodeValue>)
    requires
        pos <= input@.len(),
    ensures
        r.model() == spec_boolean(input@, pos as int),
{
    if is_at(input, pos, 't') && is_at(input, pos + 1, 'r') && is_at(input, pos + 2, 'u') && is_at(
        input,
        pos + 3,
        'e',
    ) {
        Parsed::matched(KdlNodeValue::Boolean(true), pos + 4)
    } else if is_at(input, pos, 'f') && is_at(input, pos + 1, 'a') && is_at(input, pos + 2, 'l')
        && is_at(input, pos + 3, 's') && is_at(input, pos + 4, 'e') {
        Parsed::matched(KdlNodeValue::Boolean(false), pos + 5)
    } else {
        Parsed::refused(pos)
    }
}

/// Matches `null` at `pos`.
pub fn null(input: &[char], pos: usize) -> (r: Parsed<KdlNodeValue>)
    requires
        pos <= input@.len(),
    ensures
        r.model() == spec_null(input@, pos as int),
{
    if is_at(input, pos, 'n') && is_at(input, pos + 1, 'u') && is_at(input, pos + 2, 'l') && is_at(
        input,
        pos + 3,
        'l',
    ) {
        Parsed::matched(KdlNodeValue::Null, pos + 4)
    } else {
        Parsed::refused(pos)
    }
}

/// An integer outcome as the outcome of a value.
fn int_value(p: Parsed<i64>) -> (r: Parsed<KdlNodeValue>)
    ensures
        r.model() == as_int(p.model()),
{
    let result = match p.result {
        Some((v, next)) => Some((KdlNodeValue::Int(v), next)),
        None => None,
    };
    Parsed { result, deepest: p.deepest }
}

/// A text outcome as the outcome of a string value.
fn string_value(p: Parsed<String>) -> (r: Parsed<KdlNodeValue>)
    ensures
        r.model() == p.model().map(|t: Seq<char>| ValueModel::String(t)),
{
    let result = match p.result {
        Some((t, next)) => Some((KdlNodeValue::String(t), next)),
        None => None,
    };
    Parsed { result, deepest: p.deepest }
}

/// A text outcome as the outcome of a float value.
fn float_value(p: Parsed<String>) -> (r: Parsed<KdlNodeValue>)
    ensures
        r.model() == p.model().map(|t: Seq<char>| ValueModel::Float(t)),
{
    let result = match p.result {
        Some((t, next)) => Some((KdlNodeValue::Float(t), next)),
        None => None,
    };
    Parsed { result, deepest: p.deepest }
}

/// Whether the outcome is that of a literal of the right shape that has no
/// value.
fn malformed<T: DeepView>(p: &Parsed<T>) -> (b: bool)
    ensures
        b == p.model().is_malformed(),
{
    p.result.is_none() && match &p.deepest {
        Some(e) => e.kind.is_some(),
        None => false,
    }
}

/// Matches a numeric literal at `pos`.
pub fn number(input: &[char], pos: usize) -> (r: Parsed<KdlNodeValue>)
    requires
        pos <= input@.len(),
    ensures
        r.model() == spec_number(input@, pos as int),
{
    let h = hexadecimal(input, pos);
    if h.result.is_some() || malformed(&h) {
        return int_value(h);
    }
    let o = octal(input, pos);
    if o.result.is_some() || malformed(&o) {
        return after(int_value(o), h.deepest);
    }
    let met = keep_deeper(h.deepest, o.deepest);
    let b = binary(input, pos);
    if b.result.is_some() || malformed(&b) {
        return after(int_value(b), met);
    }
    let met = keep_deeper(met, b.deepest);
    let f = float(input, pos);
    if f.result.is_some() {
        return after(float_value(f), met);
    }
    let met = keep_deeper(met, f.deepest);
    after(int_value(integer(input, pos)), met)
}

/// Matches a value at `pos`.
pub fn node_value(input: &[char], pos: usize) -> (r: Parsed<KdlNodeValue>)
    requires
        pos <= input@.len(),
    ensures
        r.model() == spec_node_value(input@, pos as int),
{
    let q = string(input, pos);
    if q.result.is_some() {
        return string_value(q);
    }
    let r = raw_string(input, pos);
    if r.result.is_some() {
        return after(string_value(r), q.deepest);
    }
    let met = keep_deeper(q.deepest, r.deepest);
    let n = number(input, pos);
    if n.result.is_some() {
        return after(n, met);
    }
    let met = keep_deeper(met, n.deepest);
    let b = boolean(input, pos);
    if b.result.is_some() {
        return after(b, met);
    }
    let met = keep_deeper(met, b.deepest);
    after(null(input, pos), met)
}

} // verus!
