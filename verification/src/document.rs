//! The grammar of nodes: arguments, children, and sequences of nodes.

use vstd::prelude::*;
use crate::attempt::{
    after, continued, failure_of, keep_deeper, label_failure, matched_after, refused,
    refused_after, Attempt, Parsed,
};
use crate::error::{deeper, lemma_deeper_associative, malformed, KdlErrorKind, KdlParseError};
use crate::node::{
    lemma_children_model, KdlNode, KdlNodeValue, KdlProperties, NodeModel, ValueModel,
};
use crate::space::{
    char_at, is_at, lemma_linespaces_bounds, lemma_linespaces_within, lemma_node_space_advances,
    lemma_node_space_within, lemma_space_within, linespaces, newline, node_space,
    spec_linespaces, spec_newline, spec_node_space,
};
use crate::strings::{
    identifier, lemma_identifier_advances, lemma_strings_within, spec_identifier,
};
use crate::value::{
    lemma_node_value_advances, lemma_values_within, node_value, spec_node_value,
};

verus! {

/// How many blocks of children may stand inside one another.
pub const MAX_DEPTH: usize = 128;

/// The model of a [`NodeArg`].
pub ghost enum Argument {
    Value(ValueModel),
    Property(Seq<char>, ValueModel),
}

/// One argument of a node: a value, or a property with its key.
#[derive(Debug, Clone, PartialEq)]
pub enum NodeArg {
    Value(KdlNodeValue),
    Property(String, KdlNodeValue),
}

impl DeepView for NodeArg {
    type V = Argument;

    open spec fn deep_view(&self) -> Argument {
        match self {
            NodeArg::Value(v) => Argument::Value(v.deep_view()),
            NodeArg::Property(k, v) => Argument::Property(k@, v.deep_view()),
        }
    }
}

/// The values among `args`, in their order.
pub open spec fn values_of(args: Seq<Argument>) -> Seq<ValueModel>
    decreases args.len(),
{
    if args.len() == 0 {
        Seq::empty()
    } else {
        match args.last() {
            Argument::Value(v) => values_of(args.drop_last()).push(v),
            Argument::Property(_, _) => values_of(args.drop_last()),
        }
    }
}

/// The properties among `args`: of two with one key the later one stays.
pub open spec fn properties_of(args: Seq<Argument>) -> Map<Seq<char>, ValueModel>
    decreases args.len(),
{
    if args.len() == 0 {
        Map::empty()
    } else {
        match args.last() {
            Argument::Value(_) => properties_of(args.drop_last()),
            Argument::Property(k, v) => properties_of(args.drop_last()).insert(k, v),
        }
    }
}

/// How many of `args` are properties.
pub open spec fn property_count(args: Seq<Argument>) -> nat
    decreases args.len(),
{
    if args.len() == 0 {
        0
    } else if args.last() is Property {
        property_count(args.drop_last()) + 1
    } else {
        property_count(args.drop_last())
    }
}

/// Whether `args` holds a property with the key `k` at `i`.
pub open spec fn has_key_at(args: Seq<Argument>, i: int, k: Seq<char>) -> bool {
    0 <= i < args.len() && args[i] is Property && args[i]->Property_0 == k
}

/// Whether no two properties among `args` have one key.
pub open spec fn distinct_property_keys(args: Seq<Argument>) -> bool {
    forall|i: int, j: int, k: Seq<char>|
        i < j && #[trigger] has_key_at(args, i, k) ==> !#[trigger] has_key_at(args, j, k)
}

/// The mapping holds a key only where a property among the arguments has
/// it, and it is finite.
pub proof fn lemma_properties_come_from_arguments(args: Seq<Argument>)
    ensures
        properties_of(args).dom().finite(),
        forall|k: Seq<char>| #[trigger]
            properties_of(args).contains_key(k) ==> exists|i: int| has_key_at(args, i, k),
    decreases args.len(),
{
    if args.len() > 0 {
        let front = args.drop_last();
        lemma_properties_come_from_arguments(front);
        assert forall|k: Seq<char>| #[trigger]
            properties_of(args).contains_key(k) implies exists|i: int| has_key_at(args, i, k) by {
            if has_key_at(args, args.len() - 1, k) {
            } else {
                assert(properties_of(front).contains_key(k));
                let i = choose|i: int| has_key_at(front, i, k);
                assert(has_key_at(args, i, k));
            }
        }
    }
}

/// Every argument of a node is kept, and none twice: there are as many
/// values as arguments that are values, in their order, and where no two
/// properties have one key, as many keys as arguments that are properties.
pub proof fn lemma_arguments_kept(args: Seq<Argument>)
    ensures
        values_of(args).len() + property_count(args) == args.len(),
        properties_of(args).dom().finite(),
        properties_of(args).dom().len() <= property_count(args),
        distinct_property_keys(args) ==> properties_of(args).dom().len() == property_count(args),
        distinct_property_keys(args) ==> values_of(args).len() + properties_of(args).dom().len()
            == args.len(),
    decreases args.len(),
{
    if args.len() > 0 {
        let front = args.drop_last();
        lemma_arguments_kept(front);
        lemma_properties_come_from_arguments(front);
        if distinct_property_keys(args) {
            assert(distinct_property_keys(front)) by {
                assert forall|i: int, j: int, k: Seq<char>|
                    i < j && #[trigger] has_key_at(front, i, k) implies !#[trigger] has_key_at(
                    front,
                    j,
                    k,
                ) by {
                    if has_key_at(front, j, k) {
                        assert(has_key_at(args, i, k));
                        assert(has_key_at(args, j, k));
                    }
                }
            }
            if args.last() is Property {
                let k = args.last()->Property_0;
                if properties_of(front).contains_key(k) {
                    let i = choose|i: int| has_key_at(front, i, k);
                    assert(has_key_at(args, i, k));
                    assert(has_key_at(args, args.len() - 1, k));
                }
            }
        }
    }
}

/// Of the properties with one key the last one stays: the mapping holds
/// the value of a property that no later property has the key of.
pub proof fn lemma_last_property_stays(args: Seq<Argument>, i: int)
    requires
        0 <= i < args.len(),
        args[i] is Property,
        forall|j: int| i < j ==> !#[trigger] has_key_at(args, j, args[i]->Property_0),
    ensures
        properties_of(args).contains_key(args[i]->Property_0),
        properties_of(args)[args[i]->Property_0] == args[i]->Property_1,
    decreases args.len(),
{
    let k = args[i]->Property_0;
    let front = args.drop_last();
    if i < args.len() - 1 {
        assert forall|j: int| i < j implies !#[trigger] has_key_at(front, j, k) by {
            if has_key_at(front, j, k) {
                assert(has_key_at(args, j, k));
            }
        }
        lemma_last_property_stays(front, i);
        assert(!has_key_at(args, args.len() - 1, k));
    }
}

/// `property := identifier '=' value`
pub open spec fn spec_property(s: Seq<char>, pos: int) -> Attempt<(Seq<char>, ValueModel)> {
    let key = spec_identifier(s, pos);
    if !key.is_match() {
        refused_after(key.deepest)
    } else if !char_at(s, key.next(), '=') {
        refused(key.next())
    } else {
        spec_node_value(s, key.next() + 1).map(|v: ValueModel| (key.value(), v))
    }
}

/// `node-argument := property | value`: a property where one matches, and
/// else a value.
pub open spec fn spec_node_arg(s: Seq<char>, pos: int) -> Attempt<Argument> {
    let p = spec_property(s, pos);
    if p.is_match() {
        p.map(|kv: (Seq<char>, ValueModel)| Argument::Property(kv.0, kv.1))
    } else {
        spec_node_value(s, pos).map(|v: ValueModel| Argument::Value(v)).after(p.deepest)
    }
}

/// One more argument behind `pos`: `node-space node-argument`.
pub open spec fn spec_spaced_arg(s: Seq<char>, pos: int) -> Attempt<Argument> {
    let space = spec_node_space(s, pos);
    if space.is_match() {
        spec_node_arg(s, space.next()).labelled("argument").after(space.deepest)
    } else {
        refused_after(space.deepest)
    }
}

/// `(node-space node-argument)*`: always a match.
pub open spec fn spec_arguments(s: Seq<char>, pos: int) -> Attempt<Seq<Argument>>
    decreases s.len() - pos,
{
    let a = spec_spaced_arg(s, pos);
    if a.is_match() {
        proof {
            lemma_spaced_arg_advances(s, pos);
        }
        continued(seq![a.value()], a.deepest, spec_arguments(s, a.next()))
    } else {
        matched_after(Seq::empty(), pos, a.deepest)
    }
}

/// The failure of a block of children that stands too deep.
pub open spec fn too_deep<V>(offset: int) -> Attempt<V> {
    refused_after(Some(malformed(offset, KdlErrorKind::Other)))
}

/// `node := identifier (node-space node-argument)* (node-space node-children)?`
/// where at most `depth` blocks of children may stand inside one another.
pub open spec fn spec_node(s: Seq<char>, pos: int, depth: nat) -> Attempt<NodeModel>
    decreases depth, 1int, s.len() - pos,
{
    let name = spec_identifier(s, pos).labelled("node name");
    if !name.is_match() {
        refused_after(name.deepest)
    } else {
        let args = spec_arguments(s, name.next());
        let space = spec_node_space(s, args.next());
        let children = if space.is_match() {
            spec_node_children(s, space.next(), depth).labelled("children").after(space.deepest)
        } else {
            refused_after(space.deepest)
        };
        let met = deeper(args.deepest, children.deepest);
        if children.is_match() {
            matched_after(
                NodeModel {
                    name: name.value(),
                    values: values_of(args.value()),
                    properties: properties_of(args.value()),
                    children: children.value(),
                },
                children.next(),
                met,
            )
        } else {
            matched_after(
                NodeModel {
                    name: name.value(),
                    values: values_of(args.value()),
                    properties: properties_of(args.value()),
                    children: Seq::empty(),
                },
                args.next(),
                met,
            )
        }
    }
}

/// `node-children := '{' nodes '}'`. With no depth left the block fails at
/// its brace, with a cause of its own.
pub open spec fn spec_node_children(s: Seq<char>, pos: int, depth: nat) -> Attempt<
    Seq<NodeModel>,
>
    decreases depth, 0int, s.len() - pos,
{
    if !char_at(s, pos, '{') {
        refused(pos)
    } else if depth == 0 {
        too_deep(pos)
    } else {
        let body = spec_nodes(s, pos + 1, (depth - 1) as nat);
        if char_at(s, body.next(), '}') {
            matched_after(body.value(), body.next() + 1, body.deepest)
        } else {
            refused::<Seq<NodeModel>>(body.next()).after(body.deepest)
        }
    }
}

/// One more node behind `pos`: `linespace* node newline`.
pub open spec fn spec_line(s: Seq<char>, pos: int, depth: nat) -> Attempt<NodeModel>
    decreases depth, 2int, s.len() - pos,
{
    let space = spec_linespaces(s, pos);
    let node = spec_node(s, space.next(), depth).after(space.deepest);
    if node.is_match() {
        let end = spec_newline(s, node.next()).labelled("newline");
        if end.is_match() {
            matched_after(node.value(), end.next(), node.deepest)
        } else {
            refused_after(deeper(node.deepest, end.deepest))
        }
    } else {
        refused_after(node.deepest)
    }
}

/// `nodes := (linespace* node newline)*`: always a match. A line that matches
/// ends behind its start and inside the text (`lemma_line_advances`), so the
/// sequence goes on for as long as lines match.
pub open spec fn spec_nodes(s: Seq<char>, pos: int, depth: nat) -> Attempt<Seq<NodeModel>>
    decreases depth, 3int, s.len() - pos,
{
    let line = spec_line(s, pos, depth);
    if line.is_match() && pos < line.next() <= s.len() {
        continued(seq![line.value()], line.deepest, spec_nodes(s, line.next(), depth))
    } else {
        matched_after(Seq::empty(), pos, line.deepest)
    }
}

/// A matched property ends behind its start and inside the text.
pub proof fn lemma_property_advances(s: Seq<char>, pos: int)
    requires
        spec_property(s, pos).is_match(),
    ensures
        pos < spec_property(s, pos).next() <= s.len(),
{
    lemma_identifier_advances(s, pos);
    lemma_node_value_advances(s, spec_identifier(s, pos).next() + 1);
}

/// A matched argument ends behind its start and inside the text.
pub proof fn lemma_node_arg_advances(s: Seq<char>, pos: int)
    requires
        0 <= pos,
        spec_node_arg(s, pos).is_match(),
    ensures
        pos < spec_node_arg(s, pos).next() <= s.len(),
{
    if spec_property(s, pos).is_match() {
        lemma_property_advances(s, pos);
    } else {
        lemma_node_value_advances(s, pos);
    }
}

/// A matched argument with the space before it ends behind its start and
/// inside the text.
pub proof fn lemma_spaced_arg_advances(s: Seq<char>, pos: int)
    requires
        spec_spaced_arg(s, pos).is_match(),
    ensures
        pos < spec_spaced_arg(s, pos).next() <= s.len(),
{
    lemma_node_space_advances(s, pos);
    lemma_node_arg_advances(s, spec_node_space(s, pos).next());
}

/// The arguments end inside the text, at or behind their start.
pub proof fn lemma_arguments_bounds(s: Seq<char>, pos: int)
    requires
        0 <= pos <= s.len(),
    ensures
        spec_arguments(s, pos).is_match(),
        pos <= spec_arguments(s, pos).next() <= s.len(),
    decreases s.len() - pos,
{
    let a = spec_spaced_arg(s, pos);
    if a.is_match() {
        lemma_spaced_arg_advances(s, pos);
        lemma_arguments_bounds(s, a.next());
    }
}

/// Nodes and blocks of children that match end behind their start and
/// inside the text.
pub proof fn lemma_node_advances(s: Seq<char>, pos: int, depth: nat)
    requires
        0 <= pos <= s.len(),
        spec_node(s, pos, depth).is_match(),
    ensures
        pos < spec_node(s, pos, depth).next() <= s.len(),
    decreases depth, 1int, s.len() - pos,
{
    lemma_identifier_advances(s, pos);
    let name = spec_identifier(s, pos);
    lemma_arguments_bounds(s, name.next());
    let args = spec_arguments(s, name.next());
    let space = spec_node_space(s, args.next());
    if space.is_match() {
        lemma_node_space_advances(s, args.next());
        if spec_node_children(s, space.next(), depth).is_match() {
            lemma_node_children_advances(s, space.next(), depth);
        }
    }
}

/// A matched block of children ends behind its start and inside the text.
pub proof fn lemma_node_children_advances(s: Seq<char>, pos: int, depth: nat)
    requires
        0 <= pos <= s.len(),
        spec_node_children(s, pos, depth).is_match(),
    ensures
        pos < spec_node_children(s, pos, depth).next() <= s.len(),
    decreases depth, 0int, s.len() - pos,
{
    lemma_nodes_bounds(s, pos + 1, (depth - 1) as nat);
}

/// A matched node with the line space before it and the line end behind it
/// ends behind its start and inside the text.
pub proof fn lemma_line_advances(s: Seq<char>, pos: int, depth: nat)
    requires
        0 <= pos <= s.len(),
        spec_line(s, pos, depth).is_match(),
    ensures
        pos < spec_line(s, pos, depth).next() <= s.len(),
    decreases depth, 2int, s.len() - pos,
{
    lemma_linespaces_bounds(s, pos);
    lemma_node_advances(s, spec_linespaces(s, pos).next(), depth);
}

/// A sequence of nodes ends inside the text, at or behind its start.
pub proof fn lemma_nodes_bounds(s: Seq<char>, pos: int, depth: nat)
    requires
        0 <= pos <= s.len(),
    ensures
        spec_nodes(s, pos, depth).is_match(),
        pos <= spec_nodes(s, pos, depth).next() <= s.len(),
    decreases depth, 3int, s.len() - pos,
{
    let line = spec_line(s, pos, depth);
    if line.is_match() {
        lemma_line_advances(s, pos, depth);
        lemma_nodes_bounds(s, line.next(), depth);
    }
}

/// The rules for arguments stay inside the text.
pub proof fn lemma_arg_within(s: Seq<char>, pos: int)
    requires
        0 <= pos <= s.len(),
    ensures
        spec_property(s, pos).within(pos, s.len() as int),
        spec_node_arg(s, pos).within(pos, s.len() as int),
        spec_spaced_arg(s, pos).within(pos, s.len() as int),
{
    lemma_strings_within(s, pos);
    lemma_values_within(s, pos);
    let key = spec_identifier(s, pos);
    if key.is_match() && char_at(s, key.next(), '=') {
        lemma_values_within(s, key.next() + 1);
    }
    lemma_node_space_within(s, pos);
    let space = spec_node_space(s, pos);
    if space.is_match() {
        let at = space.next();
        lemma_strings_within(s, at);
        lemma_values_within(s, at);
        let k = spec_identifier(s, at);
        if k.is_match() && char_at(s, k.next(), '=') {
            lemma_values_within(s, k.next() + 1);
        }
    }
}

/// The arguments stay inside the text, and leave the failure that ended
/// them.
pub proof fn lemma_arguments_within(s: Seq<char>, pos: int)
    requires
        0 <= pos <= s.len(),
    ensures
        spec_arguments(s, pos).within(pos, s.len() as int),
        spec_arguments(s, pos).deepest is Some,
        spec_arguments(s, pos).is_match(),
    decreases s.len() - pos,
{
    lemma_arg_within(s, pos);
    let a = spec_spaced_arg(s, pos);
    if a.is_match() {
        lemma_spaced_arg_advances(s, pos);
        lemma_arguments_within(s, a.next());
    }
}

/// A node stays inside the text.
pub proof fn lemma_node_within(s: Seq<char>, pos: int, depth: nat)
    requires
        0 <= pos <= s.len(),
    ensures
        spec_node(s, pos, depth).within(pos, s.len() as int),
    decreases depth, 1int, s.len() - pos,
{
    let len = s.len() as int;
    lemma_strings_within(s, pos);
    let name = spec_identifier(s, pos);
    if name.is_match() {
        let at = name.next();
        lemma_arguments_within(s, at);
        let args = spec_arguments(s, at);
        lemma_node_space_within(s, args.next());
        let space = spec_node_space(s, args.next());
        let children = if space.is_match() {
            spec_node_children(s, space.next(), depth).labelled("children").after(space.deepest)
        } else {
            refused_after(space.deepest)
        };
        if space.is_match() {
            lemma_node_children_within(s, space.next(), depth);
            assert(spec_node_children(s, space.next(), depth).within(space.next(), len));
        }
        assert(children.within(at, len));
        assert(args.within(at, len));
        assert(deeper(args.deepest, children.deepest) is Some);
        assert(pos <= deeper(args.deepest, children.deepest)->0.offset <= len);
    }
}

/// A block of children stays inside the text.
pub proof fn lemma_node_children_within(s: Seq<char>, pos: int, depth: nat)
    requires
        0 <= pos <= s.len(),
    ensures
        spec_node_children(s, pos, depth).within(pos, s.len() as int),
    decreases depth, 0int, s.len() - pos,
{
    if char_at(s, pos, '{') && depth > 0 {
        lemma_nodes_within(s, pos + 1, (depth - 1) as nat);
    }
}

/// A node with the line space before it and the line end behind it stays
/// inside the text.
pub proof fn lemma_line_within(s: Seq<char>, pos: int, depth: nat)
    requires
        0 <= pos <= s.len(),
    ensures
        spec_line(s, pos, depth).within(pos, s.len() as int),
    decreases depth, 2int, s.len() - pos,
{
    let len = s.len() as int;
    lemma_linespaces_within(s, pos);
    let space = spec_linespaces(s, pos);
    lemma_node_within(s, space.next(), depth);
    let found = spec_node(s, space.next(), depth);
    let node = found.after(space.deepest);
    assert(found.within(space.next(), len));
    assert(node.within(pos, len));
    if node.is_match() {
        lemma_space_within(s, node.next());
        let end = spec_newline(s, node.next()).labelled("newline");
        assert(end.within(node.next(), len));
    }
}

/// A sequence of nodes stays inside the text, and leaves the failure that
/// ended it.
pub proof fn lemma_nodes_within(s: Seq<char>, pos: int, depth: nat)
    requires
        0 <= pos <= s.len(),
    ensures
        spec_nodes(s, pos, depth).within(pos, s.len() as int),
        spec_nodes(s, pos, depth).deepest is Some,
        spec_nodes(s, pos, depth).is_match(),
    decreases depth, 3int, s.len() - pos,
{
    lemma_line_within(s, pos, depth);
    let line = spec_line(s, pos, depth);
    if line.is_match() {
        lemma_line_advances(s, pos, depth);
        lemma_nodes_within(s, line.next(), depth);
    }
}

/// What a matched node holds is what its arguments say: its values are the
/// arguments that are values, in their order, and there are as many values
/// and properties together as there are arguments, unless two properties
/// have one key.
pub proof fn lemma_node_keeps_arguments(s: Seq<char>, pos: int, depth: nat)
    requires
        spec_node(s, pos, depth).is_match(),
    ensures
        ({
            let n = spec_node(s, pos, depth).value();
            let args = spec_arguments(s, spec_identifier(s, pos).next()).value();
            &&& n.values == values_of(args)
            &&& n.properties == properties_of(args)
            &&& n.values.len() + property_count(args) == args.len()
            &&& n.properties.dom().finite()
            &&& distinct_property_keys(args) ==> n.values.len() + n.properties.dom().len()
                == args.len()
        }),
{
    lemma_arguments_kept(spec_arguments(s, spec_identifier(s, pos).next()).value());
}

/// Matches a property at `pos`.
pub fn property(input: &[char], pos: usize) -> (r: Parsed<(String, KdlNodeValue)>)
    requires
        pos <= input@.len(),
    ensures
        r.model() == spec_property(input@, pos as int),
{
    let key = identifier(input, pos);
    match key.result {
        None => Parsed::refused_after(key.deepest),
        Some((name, at)) => {
            proof {
                lemma_identifier_advances(input@, pos as int);
            }
            if !is_at(input, at, '=') {
                return Parsed::refused(at);
            }
            let value = node_value(input, at + 1);
            let result = match value.result {
                Some((v, next)) => Some(((name, v), next)),
                None => None,
            };
            Parsed { result, deepest: value.deepest }
        },
    }
}

/// Matches an argument at `pos`: a property, or else a value.
pub fn node_arg(input: &[char], pos: usize) -> (r: Parsed<NodeArg>)
    requires
        pos <= input@.len(),
    ensures
        r.model() == spec_node_arg(input@, pos as int),
{
    let p = property(input, pos);
    match p.result {
        Some(((key, value), next)) => Parsed {
            result: Some((NodeArg::Property(key, value), next)),
            deepest: p.deepest,
        },
        None => {
            let v = node_value(input, pos);
            let result = match v.result {
                Some((value, next)) => Some((NodeArg::Value(value), next)),
                None => None,
            };
            after(Parsed { result, deepest: v.deepest }, p.deepest)
        },
    }
}

/// Matches node space and an argument behind it, at `pos`.
pub fn spaced_arg(input: &[char], pos: usize) -> (r: Parsed<NodeArg>)
    requires
        pos <= input@.len(),
    ensures
        r.model() == spec_spaced_arg(input@, pos as int),
{
    let space = node_space(input, pos);
    match space.result {
        None => Parsed::refused_after(space.deepest),
        Some((_, at)) => {
            proof {
                lemma_node_space_advances(input@, pos as int);
            }
            after(label_failure(node_arg(input, at), "argument"), space.deepest)
        },
    }
}

/// Matches the arguments of a node, from `pos`.
pub fn arguments(input: &[char], pos: usize) -> (r: Parsed<Vec<NodeArg>>)
    requires
        pos <= input@.len(),
    ensures
        r.model() == spec_arguments(input@, pos as int),
{
    let ghost s = input@;
    let mut args: Vec<NodeArg> = Vec::new();
    let mut met: Option<KdlParseError> = None;
    let mut at: usize = pos;
    proof {
        let rest = spec_arguments(s, pos as int);
        lemma_arguments_bounds(s, pos as int);
        assert(args.deep_view() + rest.value() =~= rest.value());
    }
    loop
        invariant
            s == input@,
            pos <= at <= s.len(),
            continued(args.deep_view(), failure_of(met), spec_arguments(s, at as int))
                == spec_arguments(s, pos as int),
        decreases s.len() - at,
    {
        let a = spaced_arg(input, at);
        let ghost rest = spec_arguments(s, at as int);
        let ghost front = args.deep_view();
        let ghost before = failure_of(met);
        proof {
            lemma_arguments_bounds(s, at as int);
        }
        match a.result {
            None => {
                proof {
                    assert(front + Seq::<Argument>::empty() =~= front);
                }
                return Parsed { result: Some((args, at)), deepest: keep_deeper(met, a.deepest) };
            },
            Some((arg, next)) => {
                proof {
                    lemma_spaced_arg_advances(s, at as int);
                    lemma_arguments_bounds(s, next as int);
                    let tail = spec_arguments(s, next as int);
                    lemma_deeper_associative(before, failure_of(a.deepest), tail.deepest);
                    assert(front + (seq![arg.deep_view()] + tail.value()) =~= front.push(
                        arg.deep_view(),
                    ) + tail.value());
                }
                met = keep_deeper(met, a.deepest);
                args.push(arg);
                proof {
                    assert(args.deep_view() =~= front.push(arg.deep_view()));
                }
                at = next;
            },
        }
    }
}

/// Sorts arguments into the values, in their order, and the properties.
pub fn assemble(args: Vec<NodeArg>) -> (r: (Vec<KdlNodeValue>, KdlProperties))
    ensures
        r.0.deep_view() == values_of(args.deep_view()),
        r.1.deep_view() == properties_of(args.deep_view()),
        r.1.wf(),
{
    let ghost all = args.deep_view();
    let ghost items = args@;
    let mut values: Vec<KdlNodeValue> = Vec::new();
    let mut properties = KdlProperties::new();
    proof {
        assert(all.take(0) =~= Seq::<Argument>::empty());
        assert(values.deep_view() =~= Seq::<ValueModel>::empty());
    }
    for arg in it: args
        invariant
            it.seq() == items,
            all.len() == items.len(),
            forall|i: int| 0 <= i < items.len() ==> all[i] == (#[trigger] items[i]).deep_view(),
            values.deep_view() == values_of(all.take(it.index() as int)),
            properties.deep_view() == properties_of(all.take(it.index() as int)),
            properties.wf(),
    {
        let ghost n = it.index() as int;
        let ghost front = values.deep_view();
        proof {
            assert(all.take(n + 1).drop_last() =~= all.take(n));
            assert(all.take(n + 1).last() == items[n].deep_view());
        }
        match arg {
            NodeArg::Value(v) => {
                values.push(v);
                proof {
                    assert(values.deep_view() =~= front.push(v.deep_view()));
                }
            },
            NodeArg::Property(k, v) => {
                properties.insert(k, v);
            },
        }
    }
    proof {
        assert(all.take(all.len() as int) =~= all);
    }
    (values, properties)
}

/// Whether every node of `v` is well formed.
pub open spec fn all_wf(v: Seq<KdlNode>) -> bool {
    forall|i: int| 0 <= i < v.len() ==> (#[trigger] v[i]).wf()
}

/// Matches a node at `pos`. At most `depth` blocks of children may stand
/// inside one another in it.
pub fn node(input: &[char], pos: usize, depth: usize) -> (r: Parsed<KdlNode>)
    requires
        pos <= input@.len(),
    ensures
        r.model() == spec_node(input@, pos as int, depth as nat),
        r.result is Some ==> (r.result->0).0.wf(),
    decreases depth, 1int, input@.len() - pos,
{
    let ghost s = input@;
    let name = label_failure(identifier(input, pos), "node name");
    let (text, at) = match name.result {
        None => {
            return Parsed::refused_after(name.deepest);
        },
        Some(found) => found,
    };
    proof {
        lemma_identifier_advances(s, pos as int);
        lemma_arguments_bounds(s, at as int);
    }
    let Parsed { result, deepest } = arguments(input, at);
    let (list, end) = result.unwrap();
    let (values, properties) = assemble(list);
    let space = node_space(input, end);
    let children: Parsed<Vec<KdlNode>> = match space.result {
        Some((_, inside)) => {
            proof {
                lemma_node_space_advances(s, end as int);
            }
            after(label_failure(node_children(input, inside, depth), "children"), space.deepest)
        },
        None => Parsed::refused_after(space.deepest),
    };
    let met = keep_deeper(deepest, children.deepest);
    match children.result {
        Some((kids, next)) => {
            let n = KdlNode { name: text, values, properties, children: kids };
            proof {
                lemma_children_model(&n);
            }
            Parsed { result: Some((n, next)), deepest: met }
        },
        None => {
            let n = KdlNode { name: text, values, properties, children: Vec::new() };
            proof {
                lemma_children_model(&n);
                assert(n.children.deep_view() =~= Seq::<NodeModel>::empty());
            }
            Parsed { result: Some((n, end)), deepest: met }
        },
    }
}

/// Matches a block of children at `pos`, of which at most `depth` may stand
/// inside one another.
pub fn node_children(input: &[char], pos: usize, depth: usize) -> (r: Parsed<Vec<KdlNode>>)
    requires
        pos <= input@.len(),
    ensures
        r.model() == spec_node_children(input@, pos as int, depth as nat),
        r.result is Some ==> all_wf((r.result->0).0@),
    decreases depth, 0int, input@.len() - pos,
{
    if !is_at(input, pos, '{') {
        return Parsed::refused(pos);
    }
    if depth == 0 {
        return Parsed::refused_after(
            Some(KdlParseError::from_external_error(pos, KdlErrorKind::Other)),
        );
    }
    proof {
        lemma_nodes_bounds(input@, pos + 1, (depth - 1) as nat);
    }
    let Parsed { result, deepest } = nodes(input, pos + 1, depth - 1);
    let (kids, at) = result.unwrap();
    if is_at(input, at, '}') {
        Parsed { result: Some((kids, at + 1)), deepest }
    } else {
        after(Parsed::refused(at), deepest)
    }
}

/// Matches line space, a node and the line end behind it, at `pos`.
pub fn line(input: &[char], pos: usize, depth: usize) -> (r: Parsed<KdlNode>)
    requires
        pos <= input@.len(),
    ensures
        r.model() == spec_line(input@, pos as int, depth as nat),
        r.result is Some ==> (r.result->0).0.wf(),
    decreases depth, 2int, input@.len() - pos,
{
    let space = linespaces(input, pos);
    let at = space.result.unwrap().1;
    let found = after(node(input, at, depth), space.deepest);
    match found.result {
        None => Parsed::refused_after(found.deepest),
        Some((n, behind)) => {
            proof {
                lemma_node_advances(input@, at as int, depth as nat);
            }
            let end = label_failure(newline(input, behind), "newline");
            match end.result {
                Some((_, next)) => Parsed::matched_after(n, next, found.deepest),
                None => Parsed::refused_after(keep_deeper(found.deepest, end.deepest)),
            }
        },
    }
}

/// Matches the nodes that follow one another from `pos`.
pub fn nodes(input: &[char], pos: usize, depth: usize) -> (r: Parsed<Vec<KdlNode>>)
    requires
        pos <= input@.len(),
    ensures
        r.model() == spec_nodes(input@, pos as int, depth as nat),
        r.result is Some,
        all_wf((r.result->0).0@),
    decreases depth, 3int, input@.len() - pos,
{
    let ghost s = input@;
    let ghost d = depth as nat;
    let mut list: Vec<KdlNode> = Vec::new();
    let mut met: Option<KdlParseError> = None;
    let mut at: usize = pos;
    proof {
        let rest = spec_nodes(s, pos as int, d);
        lemma_nodes_bounds(s, pos as int, d);
        assert(list.deep_view() + rest.value() =~= rest.value());
    }
    loop
        invariant
            s == input@,
            d == depth as nat,
            pos <= at <= s.len(),
            all_wf(list@),
            continued(list.deep_view(), failure_of(met), spec_nodes(s, at as int, d))
                == spec_nodes(s, pos as int, d),
        decreases s.len() - at,
    {
        let l = line(input, at, depth);
        let ghost front = list.deep_view();
        let ghost before = failure_of(met);
        proof {
            lemma_nodes_bounds(s, at as int, d);
        }
        match l.result {
            None => {
                proof {
                    assert(front + Seq::<NodeModel>::empty() =~= front);
                }
                return Parsed { result: Some((list, at)), deepest: keep_deeper(met, l.deepest) };
            },
            Some((n, next)) => {
                proof {
                    lemma_line_advances(s, at as int, d);
                    lemma_nodes_bounds(s, next as int, d);
                    let tail = spec_nodes(s, next as int, d);
                    lemma_deeper_associative(before, failure_of(l.deepest), tail.deepest);
                    assert(front + (seq![n.deep_view()] + tail.value()) =~= front.push(
                        n.deep_view(),
                    ) + tail.value());
                }
                met = keep_deeper(met, l.deepest);
                list.push(n);
                proof {
                    assert(list.deep_view() =~= front.push(n.deep_view()));
                }
                at = next;
            },
        }
    }
}

} // verus!
