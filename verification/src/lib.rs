//! A parser for a KDL-like, node-based document language.
//!
//! The grammar is stated as specification functions over the characters of
//! the text; every executable parser is proved to compute exactly what the
//! specification function of its rule says.

use vstd::prelude::*;
use vstd::utf8::encode_utf8;

pub mod attempt;
pub mod document;
pub mod error;
pub mod node;
pub mod number;
pub mod space;
pub mod strings;
pub mod text;
pub mod value;

pub use crate::error::{KdlError, KdlErrorKind};
pub use crate::node::{KdlNode, KdlNodeValue, KdlProperties};

use crate::attempt::{Attempt, Parsed};
use crate::document::{all_wf, lemma_nodes_within, nodes, spec_nodes, MAX_DEPTH};
use crate::error::{reported_kind, Failure};
use crate::node::NodeModel;
use crate::text::{byte_offset, byte_offset_of, chars_of, lemma_byte_offset_grows};

verus! {

/// The nodes at the start of the text `s`, as far as they go.
pub open spec fn spec_document(s: Seq<char>) -> Attempt<Seq<NodeModel>> {
    spec_nodes(s, 0, MAX_DEPTH as nat)
}

/// Whether `s` is a document: its nodes account for the whole text.
pub open spec fn is_document(s: Seq<char>) -> bool {
    spec_document(s).next() == s.len()
}

/// The deepest failure met in `s`.
pub open spec fn document_failure(s: Seq<char>) -> Failure {
    spec_document(s).deepest->0
}

/// The byte offset reported for the failure `f` in `s`: that of its
/// position, or, where the text ended too early, that of its last byte.
pub open spec fn reported_offset(s: Seq<char>, f: Failure) -> int {
    if f.offset < s.len() {
        byte_offset(s, f.offset)
    } else {
        byte_offset(s, s.len() as int) - 1
    }
}

/// Parses a document. The result is the nodes of `input` if they account
/// for the whole text. If anything is left behind the last node, the result
/// is the deepest failure met: its byte offset, which lies inside `input`,
/// and its cause. No float literal is a cause: the text of every float that
/// matches is kept as it stands.
pub fn parse_document(input: &str) -> (r: Result<Vec<KdlNode>, KdlError>)
    ensures
        match r {
            Ok(list) => {
                &&& is_document(input@)
                &&& list.deep_view() == spec_document(input@).value()
                &&& all_wf(list@)
            },
            Err(e) => {
                &&& !is_document(input@)
                &&& e.input@ == input@
                &&& e.offset == reported_offset(input@, document_failure(input@))
                &&& e.offset < encode_utf8(input@).len()
                &&& e.kind == reported_kind(document_failure(input@), input@.len() as int)
                &&& !(e.kind is ParseFloatError)
            },
        },
{
    let chars = chars_of(input);
    let total = input.as_bytes().len();
    let len = chars.len();
    proof {
        lemma_nodes_within(input@, 0, MAX_DEPTH as nat);
    }
    let Parsed { result, deepest } = nodes(chars.as_slice(), 0, MAX_DEPTH);
    let (list, end) = result.unwrap();
    if end == len {
        return Ok(list);
    }
    let e = deepest.unwrap();
    proof {
        assert(input@.take(input@.len() as int) =~= input@);
        lemma_byte_offset_grows(input@, 0, input@.len() as int);
        if e.offset < len {
            lemma_byte_offset_grows(input@, e.offset as int, input@.len() as int);
        }
    }
    let offset = if e.offset < len {
        byte_offset_of(chars.as_slice(), e.offset)
    } else {
        total - 1
    };
    Err(KdlError { input: input.to_owned(), offset, kind: e.report(len) })
}

} // verus!
