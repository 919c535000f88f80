//! The document tree: nodes, their values and their properties.

use vstd::prelude::*;

verus! {

/// The model of a [`KdlNodeValue`].
pub ghost enum ValueModel {
    Int(i64),
    Float(Seq<char>),
    String(Seq<char>),
    Boolean(bool),
    Null,
}

/// The model of a [`KdlNode`].
pub ghost struct NodeModel {
    pub name: Seq<char>,
    pub values: Seq<ValueModel>,
    pub properties: Map<Seq<char>, ValueModel>,
    pub children: Seq<NodeModel>,
}

/// One value of a node. A float is held as the text of its literal, without
/// separators: a sign if one was written, digits, then a fraction, an
/// exponent or both.
#[derive(Debug, PartialEq)]
pub enum KdlNodeValue {
    Int(i64),
    Float(String),
    String(String),
    Boolean(bool),
    Null,
}

impl DeepView for KdlNodeValue {
    type V = ValueModel;

    open spec fn deep_view(&self) -> ValueModel {
        match self {
            KdlNodeValue::Int(i) => ValueModel::Int(*i),
            KdlNodeValue::Float(t) => ValueModel::Float(t@),
            KdlNodeValue::String(t) => ValueModel::String(t@),
            KdlNodeValue::Boolean(b) => ValueModel::Boolean(*b),
            KdlNodeValue::Null => ValueModel::Null,
        }
    }
}

impl Clone for KdlNodeValue {
    fn clone(&self) -> (r: KdlNodeValue)
        ensures
            r.deep_view() == self.deep_view(),
    {
        match self {
            KdlNodeValue::Int(i) => KdlNodeValue::Int(*i),
            KdlNodeValue::Float(t) => KdlNodeValue::Float(t.clone()),
            KdlNodeValue::String(t) => KdlNodeValue::String(t.clone()),
            KdlNodeValue::Boolean(b) => KdlNodeValue::Boolean(*b),
            KdlNodeValue::Null => KdlNodeValue::Null,
        }
    }
}

/// A copy of each of `values`, in their order.
pub fn clone_values(values: &Vec<KdlNodeValue>) -> (r: Vec<KdlNodeValue>)
    ensures
        r.deep_view() == values.deep_view(),
{
    let mut r: Vec<KdlNodeValue> = Vec::new();
    let mut i: usize = 0;
    while i < values.len()
        invariant
            i <= values@.len(),
            r@.len() == i,
            forall|j: int| 0 <= j < i ==> r@[j].deep_view() == values@[j].deep_view(),
        decreases values@.len() - i,
    {
        r.push(values[i].clone());
        i += 1;
    }
    assert(r.deep_view() =~= values.deep_view());
    r
}

/// The mapping that a sequence of entries builds when they are inserted in
/// order: of two entries with one key the later one stays.
pub open spec fn entries_map(e: Seq<(Seq<char>, ValueModel)>) -> Map<Seq<char>, ValueModel>
    decreases e.len(),
{
    if e.len() == 0 {
        Map::empty()
    } else {
        entries_map(e.drop_last()).insert(e.last().0, e.last().1)
    }
}

/// Whether no key occurs twice in `e`.
pub open spec fn distinct_keys(e: Seq<(Seq<char>, ValueModel)>) -> bool {
    forall|i: int, j: int| 0 <= i < j < e.len() ==> e[i].0 != e[j].0
}

/// Where no key occurs twice, the mapping holds each entry as it stands and
/// nothing else, so it has as many keys as there are entries.
pub proof fn lemma_entries_map_distinct(e: Seq<(Seq<char>, ValueModel)>)
    requires
        distinct_keys(e),
    ensures
        forall|i: int|
            0 <= i < e.len() ==> #[trigger] entries_map(e).contains_key(e[i].0) && entries_map(
                e,
            )[e[i].0] == e[i].1,
        forall|k: Seq<char>| #[trigger]
            entries_map(e).contains_key(k) ==> exists|i: int| 0 <= i < e.len() && e[i].0 == k,
        entries_map(e).dom().finite(),
        entries_map(e).dom().len() == e.len(),
    decreases e.len(),
{
    if e.len() > 0 {
        let front = e.drop_last();
        let last = e.last();
        lemma_entries_map_distinct(front);
        assert forall|k: Seq<char>| #[trigger]
            entries_map(e).contains_key(k) implies exists|i: int| 0 <= i < e.len() && e[i].0
            == k by {
            if k == last.0 {
                assert(e[e.len() - 1].0 == k);
            } else {
                assert(entries_map(front).contains_key(k));
                let i = choose|i: int| 0 <= i < front.len() && front[i].0 == k;
                assert(e[i].0 == k);
            }
        }
        assert forall|i: int| 0 <= i < e.len() implies #[trigger] entries_map(e).contains_key(
            e[i].0,
        ) && entries_map(e)[e[i].0] == e[i].1 by {
            if i < e.len() - 1 {
                assert(front[i] == e[i]);
                assert(e[i].0 != e[e.len() - 1].0);
            }
        }
        if entries_map(front).contains_key(last.0) {
            let i = choose|i: int| 0 <= i < front.len() && front[i].0 == last.0;
            assert(e[i].0 == e[e.len() - 1].0);
        }
    }
}

/// The properties of a node: for each key one value.
#[derive(Debug, PartialEq)]
pub struct KdlProperties {
    pub entries: Vec<(String, KdlNodeValue)>,
}

impl DeepView for KdlProperties {
    type V = Map<Seq<char>, ValueModel>;

    open spec fn deep_view(&self) -> Map<Seq<char>, ValueModel> {
        entries_map(self.entries.deep_view())
    }
}

impl Clone for KdlProperties {
    fn clone(&self) -> (r: KdlProperties)
        ensures
            r.entries.deep_view() == self.entries.deep_view(),
            r.deep_view() == self.deep_view(),
            r.wf() == self.wf(),
    {
        let mut entries: Vec<(String, KdlNodeValue)> = Vec::new();
        let mut i: usize = 0;
        while i < self.entries.len()
            invariant
                i <= self.entries@.len(),
                entries@.len() == i,
                forall|j: int|
                    0 <= j < i ==> entries@[j].deep_view() == self.entries@[j].deep_view(),
            decreases self.entries@.len() - i,
        {
            let key = self.entries[i].0.clone();
            let value = self.entries[i].1.clone();
            entries.push((key, value));
            i += 1;
        }
        assert(entries.deep_view() =~= self.entries.deep_view());
        KdlProperties { entries }
    }
}

impl KdlProperties {
    /// No key is held twice.
    pub open spec fn wf(&self) -> bool {
        distinct_keys(self.entries.deep_view())
    }

    /// No properties.
    pub fn new() -> (p: KdlProperties)
        ensures
            p.wf(),
            p.deep_view() == Map::<Seq<char>, ValueModel>::empty(),
            p.entries@.len() == 0,
    {
        let p = KdlProperties { entries: Vec::new() };
        assert(p.entries.deep_view() =~= Seq::empty());
        p
    }

    /// The number of keys.
    pub fn len(&self) -> (n: usize)
        ensures
            n == self.entries@.len(),
            self.wf() ==> n == self.deep_view().dom().len(),
    {
        proof {
            if self.wf() {
                lemma_entries_map_distinct(self.entries.deep_view());
            }
        }
        self.entries.len()
    }

    /// The first place where `key` is held, if it is held.
    pub fn position(&self, key: &String) -> (r: Option<usize>)
        ensures
            match r {
                Some(i) => {
                    &&& i < self.entries@.len()
                    &&& self.entries@[i as int].0@ == key@
                    &&& forall|j: int| 0 <= j < i ==> self.entries@[j].0@ != key@
                },
                None => forall|j: int|
                    0 <= j < self.entries@.len() ==> self.entries@[j].0@ != key@,
            },
    {
        let mut i: usize = 0;
        while i < self.entries.len()
            invariant
                i <= self.entries@.len(),
                forall|j: int| 0 <= j < i ==> self.entries@[j].0@ != key@,
            decreases self.entries@.len() - i,
        {
            if self.entries[i].0 == *key {
                return Some(i);
            }
            i += 1;
        }
        None
    }

    /// The value held for `key`, if there is one.
    pub fn get(&self, key: &String) -> (r: Option<&KdlNodeValue>)
        requires
            self.wf(),
        ensures
            match r {
                Some(v) => self.deep_view().contains_key(key@) && self.deep_view()[key@]
                    == v.deep_view(),
                None => !self.deep_view().contains_key(key@),
            },
    {
        proof {
            lemma_entries_map_distinct(self.entries.deep_view());
        }
        match self.position(key) {
            Some(i) => {
                assert(self.entries.deep_view()[i as int].0 == key@);
                Some(&self.entries[i].1)
            },
            None => {
                assert forall|j: int| 0 <= j < self.entries.deep_view().len() implies self.entries.deep_view()[j].0
                    != key@ by {
                    assert(self.entries.deep_view()[j].0 == self.entries@[j].0@);
                }
                None
            },
        }
    }

    /// Sets the value of `key`; a value held for it before is given up.
    pub fn insert(&mut self, key: String, value: KdlNodeValue)
        requires
            old(self).wf(),
        ensures
            final(self).wf(),
            final(self).deep_view() == old(self).deep_view().insert(key@, value.deep_view()),
    {
        let ghost before = self.entries.deep_view();
        let ghost k = key@;
        let ghost v = value.deep_view();
        proof {
            lemma_entries_map_distinct(before);
        }
        match self.position(&key) {
            Some(i) => {
                self.entries.set(i, (key, value));
                proof {
                    let now = self.entries.deep_view();
                    assert(now =~= before.update(i as int, (k, v)));
                    assert(before[i as int].0 == k);
                    assert(distinct_keys(now)) by {
                        assert forall|a: int, b: int| 0 <= a < b < now.len() implies now[a].0
                            != now[b].0 by {
                            assert(now[a].0 == before[a].0);
                            assert(now[b].0 == before[b].0);
                        }
                    }
                    lemma_entries_map_distinct(now);
                    assert(entries_map(now) =~= entries_map(before).insert(k, v)) by {
                        assert forall|q: Seq<char>|
                            entries_map(now).contains_key(q) implies #[trigger] entries_map(
                            before,
                        ).insert(k, v).contains_key(q) by {
                            let j = choose|j: int| 0 <= j < now.len() && now[j].0 == q;
                            assert(before[j].0 == q);
                            assert(entries_map(before).contains_key(before[j].0));
                        }
                        assert forall|q: Seq<char>| #[trigger]
                            entries_map(before).insert(k, v).contains_key(
                                q,
                            ) implies entries_map(now).contains_key(q) && entries_map(now)[q]
                            == entries_map(before).insert(k, v)[q] by {
                            if q == k {
                                assert(now[i as int].0 == k);
                                assert(entries_map(now).contains_key(now[i as int].0));
                            } else {
                                let j = choose|j: int| 0 <= j < before.len() && before[j].0 == q;
                                assert(now[j] == before[j]);
                                assert(entries_map(now).contains_key(now[j].0));
                                assert(entries_map(before).contains_key(before[j].0));
                            }
                        }
                    }
                }
            },
            None => {
                self.entries.push((key, value));
                proof {
                    let now = self.entries.deep_view();
                    assert(now =~= before.push((k, v)));
                    assert(now.drop_last() =~= before);
                    assert(distinct_keys(now)) by {
                        assert forall|a: int, b: int| 0 <= a < b < now.len() implies now[a].0
                            != now[b].0 by {
                            if b == now.len() - 1 {
                                assert(old(self).entries@[a].0@ != k);
                                assert(before[a].0 == old(self).entries@[a].0@);
                            }
                        }
                    }
                }
            },
        }
    }
}

/// One node: its name, its values in the order written, its properties,
/// and its children in the order written.
#[derive(Debug, PartialEq)]
pub struct KdlNode {
    pub name: String,
    pub values: Vec<KdlNodeValue>,
    pub properties: KdlProperties,
    pub children: Vec<KdlNode>,
}

/// The model of `n`: its name, the models of its values, its properties
/// as a mapping, and the models of its children.
pub open spec fn node_model(n: KdlNode) -> NodeModel
    decreases n,
{
    NodeModel {
        name: n.name@,
        values: n.values.deep_view(),
        properties: n.properties.deep_view(),
        children: Seq::new(
            n.children@.len(),
            |i: int|
                if 0 <= i < n.children@.len() {
                    node_model(n.children@[i])
                } else {
                    arbitrary()
                },
        ),
    }
}

impl DeepView for KdlNode {
    type V = NodeModel;

    open spec fn deep_view(&self) -> NodeModel {
        node_model(*self)
    }
}

impl Clone for KdlNode {
    fn clone(&self) -> (r: KdlNode)
        ensures
            r.deep_view() == self.deep_view(),
            self.wf() ==> r.wf(),
        decreases self,
    {
        let mut children: Vec<KdlNode> = Vec::new();
        let mut i: usize = 0;
        while i < self.children.len()
            invariant
                i <= self.children@.len(),
                children@.len() == i,
                forall|j: int|
                    0 <= j < i ==> node_model(children@[j]) == node_model(self.children@[j]),
                self.wf() ==> forall|j: int| 0 <= j < i ==> (#[trigger] children@[j]).wf(),
            decreases self.children@.len() - i,
        {
            let child = self.children[i].clone();
            children.push(child);
            i += 1;
        }
        let r = KdlNode {
            name: self.name.clone(),
            values: clone_values(&self.values),
            properties: self.properties.clone(),
            children,
        };
        proof {
            assert(node_model(r).children =~= node_model(*self).children);
        }
        r
    }
}

impl KdlNode {
    /// In this node and in every node below it, no property key is held
    /// twice.
    pub open spec fn wf(&self) -> bool
        decreases self,
    {
        &&& self.properties.wf()
        &&& forall|i: int|
            0 <= i < self.children@.len() ==> (#[trigger] self.children@[i]).wf()
    }
}

/// The children of a node are modelled as the sequence of their models.
pub proof fn lemma_children_model(n: &KdlNode)
    ensures
        n.deep_view().children == n.children.deep_view(),
{
    assert(n.deep_view().children =~= n.children.deep_view());
}

} // verus!
