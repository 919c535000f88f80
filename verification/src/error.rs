//! The error model: what a failed attempt remembers, how two failures are
//! ranked, and the single error that a document parse reports.

use vstd::prelude::*;

verus! {

/// Why the digits of a numeric literal have no value of the target type.
#[derive(Debug, Clone, Copy, PartialEq, Eq)]
pub enum NumberCause {
    /// The digits denote a number above the largest 64-bit signed integer.
    Overflow,
    /// The text is not a number at all.
    Invalid,
}

/// The cause that a reported error names.
#[derive(Debug, Clone, Copy, PartialEq, Eq)]
pub enum KdlErrorKind {
    /// An integer literal of the right shape that cannot be converted.
    ParseIntError(NumberCause),
    /// A float literal of the right shape that cannot be converted.
    ParseFloatError(NumberCause),
    /// A failure inside the named grammar component.
    Context(&'static str),
    /// The text ended while more was expected.
    IncompleteInput,
    /// Nothing more specific is known.
    Other,
}

/// The error of a document parse: the text, the byte offset of the deepest
/// failure in it, and the cause.
#[derive(Debug, Clone, PartialEq, Eq)]
pub struct KdlError {
    pub input: String,
    pub offset: usize,
    pub kind: KdlErrorKind,
}

/// The mathematical model of a [`KdlParseError`]: a failure at a character
/// position, with the label and the cause attached to it so far.
pub ghost struct Failure {
    pub offset: int,
    pub context: Option<&'static str>,
    pub kind: Option<KdlErrorKind>,
}

/// A failure of one matching attempt, at a character position of the text.
#[derive(Debug, Clone, Copy, PartialEq, Eq)]
pub struct KdlParseError {
    pub offset: usize,
    pub context: Option<&'static str>,
    pub kind: Option<KdlErrorKind>,
}

impl View for KdlParseError {
    type V = Failure;

    open spec fn view(&self) -> Failure {
        Failure { offset: self.offset as int, context: self.context, kind: self.kind }
    }
}

/// A bare mismatch at `offset`.
pub open spec fn mismatch(offset: int) -> Failure {
    Failure { offset, context: None, kind: None }
}

/// A literal at `offset` whose conversion failed with `kind`.
pub open spec fn malformed(offset: int, kind: KdlErrorKind) -> Failure {
    Failure { offset, context: None, kind: Some(kind) }
}

/// Whether `kind` is a cause that a failure carries from the place where it
/// arose: an integer that is too large, or children that stand too deep.
pub open spec fn is_cause(kind: KdlErrorKind) -> bool {
    kind == KdlErrorKind::ParseIntError(NumberCause::Overflow) || kind == KdlErrorKind::Other
}

/// `f` with `label` attached, unless a nearer label is already there.
pub open spec fn with_context(label: &'static str, f: Failure) -> Failure {
    if f.context is None {
        Failure { context: Some(label), ..f }
    } else {
        f
    }
}

/// Whether `b` is to be reported rather than `a`: a failure with a cause
/// goes before one without; then the deeper one; then a labelled one.
pub open spec fn outranks(b: Failure, a: Failure) -> bool {
    if (b.kind is Some) != (a.kind is Some) {
        b.kind is Some
    } else if b.offset != a.offset {
        b.offset > a.offset
    } else {
        b.context is Some && a.context is None
    }
}

/// The failure to keep of two: the later one only where it outranks the
/// earlier.
pub open spec fn deeper(a: Option<Failure>, b: Option<Failure>) -> Option<Failure> {
    match (a, b) {
        (None, _) => b,
        (_, None) => a,
        (Some(x), Some(y)) => if outranks(y, x) {
            b
        } else {
            a
        },
    }
}

/// Which of three failures is kept does not depend on how they are paired.
pub proof fn lemma_deeper_associative(a: Option<Failure>, b: Option<Failure>, c: Option<Failure>)
    ensures
        deeper(deeper(a, b), c) == deeper(a, deeper(b, c)),
{
}

/// The cause reported for the deepest failure `f` in a text of `len`
/// characters.
pub open spec fn reported_kind(f: Failure, len: int) -> KdlErrorKind {
    if f.kind is Some {
        f.kind->0
    } else if f.offset >= len {
        KdlErrorKind::IncompleteInput
    } else if f.context is Some {
        KdlErrorKind::Context(f.context->0)
    } else {
        KdlErrorKind::Other
    }
}

impl KdlParseError {
    /// A bare mismatch at `offset`.
    pub fn from_error_kind(offset: usize) -> (e: KdlParseError)
        ensures
            e@ == mismatch(offset as int),
    {
        KdlParseError { offset, context: None, kind: None }
    }

    /// A literal at `offset` whose conversion failed with `kind`.
    pub fn from_external_error(offset: usize, kind: KdlErrorKind) -> (e: KdlParseError)
        ensures
            e@ == malformed(offset as int, kind),
    {
        KdlParseError { offset, context: None, kind: Some(kind) }
    }

    /// Attaches `ctx` to `other`, unless a nearer label is already there.
    pub fn add_context(ctx: &'static str, other: KdlParseError) -> (e: KdlParseError)
        ensures
            e@ == with_context(ctx, other@),
    {
        match other.context {
            None => KdlParseError { offset: other.offset, context: Some(ctx), kind: other.kind },
            Some(_) => other,
        }
    }

    /// The cause to report for this failure, the deepest one met in a text
    /// of `len` characters: the cause attached to it, if any; else that the
    /// text ended too early, if the failure lies at its end; else the label
    /// attached to it, if any.
    pub fn report(&self, len: usize) -> (kind: KdlErrorKind)
        ensures
            kind == reported_kind(self@, len as int),
    {
        match self.kind {
            Some(k) => k,
            None => if self.offset >= len {
                KdlErrorKind::IncompleteInput
            } else {
                match self.context {
                    Some(label) => KdlErrorKind::Context(label),
                    None => KdlErrorKind::Other,
                }
            },
        }
    }

    /// Keeps `self` unless `other` outranks it.
    pub fn append(self, other: KdlParseError) -> (e: KdlParseError)
        ensures
            Some(e@) == deeper(Some(self@), Some(other@)),
    {
        let by_kind = other.kind.is_some() != self.kind.is_some();
        let wins = if by_kind {
            other.kind.is_some()
        } else if other.offset != self.offset {
            other.offset > self.offset
        } else {
            other.context.is_some() && self.context.is_none()
        };
        if wins {
            other
        } else {
            self
        }
    }
}

} // verus!
