//! The outcome of one matching attempt: what was matched and where the text
//! goes on, together with the deepest failure met on the way.

use vstd::prelude::*;
use crate::error::{deeper, is_cause, mismatch, with_context, Failure, KdlParseError};

verus! {

/// The model of an attempt. `result` holds the value and the position behind
/// the match; `deepest` is the failure to report if the document as a whole
/// does not parse. An attempt that matched may still have met failures, in
/// alternatives that were given up and at the end of repetitions.
pub ghost struct Attempt<V> {
    pub result: Option<(V, int)>,
    pub deepest: Option<Failure>,
}

impl<V> Attempt<V> {
    /// Whether the rule matched.
    pub open spec fn is_match(self) -> bool {
        self.result is Some
    }

    /// What was matched, where the rule matched.
    pub open spec fn value(self) -> V {
        (self.result->0).0
    }

    /// The position behind the match, where the rule matched.
    pub open spec fn next(self) -> int {
        (self.result->0).1
    }

    /// The same attempt, with the failures met before it taken into account.
    pub open spec fn after(self, earlier: Option<Failure>) -> Attempt<V> {
        Attempt { result: self.result, deepest: deeper(earlier, self.deepest) }
    }

    /// The same attempt with `f` applied to its value.
    pub open spec fn map<W>(self, f: spec_fn(V) -> W) -> Attempt<W> {
        Attempt {
            result: match self.result {
                Some((v, n)) => Some((f(v), n)),
                None => None,
            },
            deepest: self.deepest,
        }
    }

    /// Whether the attempt found a literal of the right shape that has no
    /// value.
    pub open spec fn is_malformed(self) -> bool {
        self.result is None && self.deepest is Some && self.deepest->0.kind is Some
    }

    /// Whether the attempt, made at `pos` in a text of `len` characters,
    /// stays inside the text: a match ends there, a mismatch leaves a
    /// failure, and every failure lies between `pos` and the end. A failure
    /// with a cause lies before the end, and its cause is an integer that
    /// is too large, or children that stand too deep.
    pub open spec fn within(self, pos: int, len: int) -> bool {
        &&& self.result is None ==> self.deepest is Some
        &&& self.result is Some ==> pos <= self.next() <= len
        &&& self.deepest is Some ==> {
            &&& pos <= self.deepest->0.offset <= len
            &&& self.deepest->0.kind is Some ==> {
                &&& self.deepest->0.offset < len
                &&& is_cause(self.deepest->0.kind->0)
            }
        }
    }

    /// The attempt with `label` attached to its failure, where it did not
    /// match.
    pub open spec fn labelled(self, label: &'static str) -> Attempt<V> {
        match (self.result, self.deepest) {
            (None, Some(f)) => Attempt { result: None, deepest: Some(with_context(label, f)) },
            _ => self,
        }
    }
}

/// A match of `value` that ends before `next`, with no failure met.
pub open spec fn matched<V>(value: V, next: int) -> Attempt<V> {
    Attempt { result: Some((value, next)), deepest: None }
}

/// A match of `value` that ends before `next`, after the failures `met`.
pub open spec fn matched_after<V>(value: V, next: int, met: Option<Failure>) -> Attempt<V> {
    Attempt { result: Some((value, next)), deepest: met }
}

/// A mismatch at `offset`.
pub open spec fn refused<V>(offset: int) -> Attempt<V> {
    Attempt { result: None, deepest: Some(mismatch(offset)) }
}

/// No match, after the failures `met`.
pub open spec fn refused_after<V>(met: Option<Failure>) -> Attempt<V> {
    Attempt { result: None, deepest: met }
}

/// The attempt `rest` at the remainder of a repetition, with the items
/// `front` before its value and the failures `met` before its own.
pub open spec fn continued<A>(front: Seq<A>, met: Option<Failure>, rest: Attempt<Seq<A>>)
    -> Attempt<Seq<A>> {
    Attempt {
        result: match rest.result {
            Some((v, n)) => Some((front + v, n)),
            None => None,
        },
        deepest: deeper(met, rest.deepest),
    }
}

/// The model of an optional failure.
pub open spec fn failure_of(e: Option<KdlParseError>) -> Option<Failure> {
    match e {
        Some(e) => Some(e@),
        None => None,
    }
}

/// What a parser returns: the value and the position behind it, if the rule
/// matched, and the deepest failure met.
#[derive(Debug, Clone, PartialEq)]
pub struct Parsed<T> {
    pub result: Option<(T, usize)>,
    pub deepest: Option<KdlParseError>,
}

impl<T: DeepView> Parsed<T> {
    /// The attempt that this outcome stands for.
    pub open spec fn model(&self) -> Attempt<T::V> {
        Attempt {
            result: match self.result {
                Some((v, n)) => Some((v.deep_view(), n as int)),
                None => None,
            },
            deepest: failure_of(self.deepest),
        }
    }
}

impl<T: DeepView> Parsed<T> {
    /// A match of `value` that ends before `next`, with no failure met.
    pub fn matched(value: T, next: usize) -> (r: Parsed<T>)
        ensures
            r.model() == matched(value.deep_view(), next as int),
            r.result == Some((value, next)),
    {
        Parsed { result: Some((value, next)), deepest: None }
    }

    /// A match of `value` that ends before `next`, after the failures
    /// `met`.
    pub fn matched_after(value: T, next: usize, met: Option<KdlParseError>) -> (r: Parsed<T>)
        ensures
            r.model() == matched_after(value.deep_view(), next as int, failure_of(met)),
            r.result == Some((value, next)),
    {
        Parsed { result: Some((value, next)), deepest: met }
    }

    /// A mismatch at `offset`.
    pub fn refused(offset: usize) -> (r: Parsed<T>)
        ensures
            r.model() == refused::<T::V>(offset as int),
    {
        Parsed { result: None, deepest: Some(KdlParseError::from_error_kind(offset)) }
    }

    /// No match, after the failures `met`.
    pub fn refused_after(met: Option<KdlParseError>) -> (r: Parsed<T>)
        ensures
            r.model() == refused_after::<T::V>(failure_of(met)),
    {
        Parsed { result: None, deepest: met }
    }
}

impl<T> Parsed<T> {
    /// Whether the rule matched.
    pub fn is_ok(&self) -> (b: bool)
        ensures
            b == (self.result is Some),
    {
        self.result.is_some()
    }

    /// Whether the rule did not match.
    pub fn is_err(&self) -> (b: bool)
        ensures
            b == (self.result is None),
    {
        self.result.is_none()
    }
}

/// Keeps the earlier failure unless the later one outranks it.
pub fn keep_deeper(a: Option<KdlParseError>, b: Option<KdlParseError>) -> (r: Option<
    KdlParseError,
>)
    ensures
        failure_of(r) == deeper(failure_of(a), failure_of(b)),
{
    match a {
        None => b,
        Some(x) => match b {
            None => Some(x),
            Some(y) => Some(x.append(y)),
        },
    }
}

/// The same outcome, with the failures met before it taken into account.
pub fn after<T: DeepView>(p: Parsed<T>, earlier: Option<KdlParseError>) -> (r: Parsed<T>)
    ensures
        r.model() == p.model().after(failure_of(earlier)),
        r.result == p.result,
{
    Parsed { result: p.result, deepest: keep_deeper(earlier, p.deepest) }
}

/// Attaches `label` to the failure of an attempt that did not match.
pub fn label_failure<T: DeepView>(p: Parsed<T>, label: &'static str) -> (r: Parsed<T>)
    ensures
        r.model() == p.model().labelled(label),
        r.result == p.result,
{
    match p.result {
        Some(_) => p,
        None => match p.deepest {
            Some(e) => Parsed { result: None, deepest: Some(KdlParseError::add_context(label, e)) },
            None => p,
        },
    }
}

} // verus!
