//! The values that annotation metadata holds, and the map that holds them.

use vstd::prelude::*;
use crate::strmap::{StrMap, compare_keys, Rank};

verus! {

/// A metadata value as a mathematical tree.
pub enum Node {
    Null,
    Bool(bool),
    Integer(int),
    /// A floating-point number, by the 64 bits of its IEEE 754 form.
    Float(u64),
    Bytes(Seq<u8>),
    Text(Seq<char>),
    Array(Seq<Node>),
    /// A map, as its entries in order.
    Table(Seq<(Node, Node)>),
    Tag(u64, Box<Node>),
}

/// A metadata value.
#[derive(Debug)]
pub enum Value {
    Null,
    Bool(bool),
    Integer(i128),
    /// A floating-point number, held as the 64 bits of its IEEE 754 form.
    Float(u64),
    Bytes(Vec<u8>),
    Text(String),
    Array(Vec<Value>),
    /// A map, as its entries in order.
    Table(Vec<(Value, Value)>),
    Tag(u64, Box<Value>),
}

impl Value {
    /// The tree that this value stands for.
    pub open spec fn node(self) -> Node
        decreases self,
    {
        match self {
            Value::Null => Node::Null,
            Value::Bool(b) => Node::Bool(b),
            Value::Integer(i) => Node::Integer(i as int),
            Value::Float(bits) => Node::Float(bits),
            Value::Bytes(b) => Node::Bytes(b@),
            Value::Text(s) => Node::Text(s@),
            Value::Array(a) => Node::Array(
                Seq::new(
                    a@.len(),
                    |i: int|
                        if 0 <= i < a@.len() {
                            a@[i].node()
                        } else {
                            Node::Null
                        },
                ),
            ),
            Value::Table(m) => Node::Table(
                Seq::new(
                    m@.len(),
                    |i: int|
                        if 0 <= i < m@.len() {
                            (m@[i].0.node(), m@[i].1.node())
                        } else {
                            (Node::Null, Node::Null)
                        },
                ),
            ),
            Value::Tag(t, b) => Node::Tag(t, Box::new(b.node())),
        }
    }
}

impl View for Value {
    type V = Node;

    open spec fn view(&self) -> Node {
        self.node()
    }
}

/// The trees of a sequence of values.
pub open spec fn nodes_of(values: Seq<Value>) -> Seq<Node> {
    Seq::new(values.len(), |i: int| values[i].node())
}

/// An array value stands for the array of its items' trees.
pub proof fn lemma_array_node(items: Vec<Value>)
    ensures
        Value::Array(items).node() == Node::Array(nodes_of(items@)),
{
    assert(Value::Array(items).node()->Array_0 =~= nodes_of(items@));
}

/// The metadata of an annotation: values under text keys, in key order.
pub type Data = StrMap<Value>;

/// The metadata as a map of trees.
pub open spec fn model(data: Map<Seq<char>, Value>) -> Map<Seq<char>, Node> {
    data.map_values(|v: Value| v.node())
}

pub proof fn lemma_model_insert(data: Map<Seq<char>, Value>, k: Seq<char>, v: Value)
    ensures
        model(data.insert(k, v)) == model(data).insert(k, v.node()),
{
    assert(model(data.insert(k, v)) =~= model(data).insert(k, v.node()));
}

pub proof fn lemma_model_remove(data: Map<Seq<char>, Value>, k: Seq<char>)
    ensures
        model(data.remove(k)) == model(data).remove(k),
{
    assert(model(data.remove(k)) =~= model(data).remove(k));
}

pub proof fn lemma_model_get(data: Map<Seq<char>, Value>, k: Seq<char>)
    ensures
        model(data).contains_key(k) == data.contains_key(k),
        data.contains_key(k) ==> model(data)[k] == data[k].node(),
{
}

/// Whether a value is the text `text`.
pub fn is_text(v: &Value, text: &str) -> (b: bool)
    ensures
        b == (v.node() == Node::Text(text@)),
{
    match v {
        Value::Text(s) => compare_keys(s.as_str(), text) == Rank::Equal,
        _ => false,
    }
}

/// Whether one of the values is the text `text`.
pub fn has_text(items: &Vec<Value>, text: &str) -> (b: bool)
    ensures
        b == nodes_of(items@).contains(Node::Text(text@)),
{
    let mut i: usize = 0;
    while i < items.len()
        invariant
            i <= items@.len(),
            forall|j: int| 0 <= j < i ==> nodes_of(items@)[j] != Node::Text(text@),
        decreases items@.len() - i,
    {
        if is_text(&items[i], text) {
            assert(nodes_of(items@)[i as int] == Node::Text(text@));
            return true;
        }
        i += 1;
    }
    false
}

/// The values but for those that are the text `text`, and whether any was.
pub fn without_text(items: Vec<Value>, text: &str) -> (r: (Vec<Value>, bool))
    ensures
        nodes_of(r.0@) == nodes_of(items@).filter(|n: Node| n != Node::Text(text@)),
        r.1 == nodes_of(items@).contains(Node::Text(text@)),
{
    let ghost pred = |n: Node| n != Node::Text(text@);
    let ghost all = nodes_of(items@);
    let mut kept: Vec<Value> = Vec::new();
    let mut found = false;
    proof {
        reveal(Seq::filter);
        assert(nodes_of(kept@) =~= all.take(0).filter(pred));
    }
    for x in it: items
        invariant
            all == nodes_of(it.seq()),
            pred == (|n: Node| n != Node::Text(text@)),
            nodes_of(kept@) == all.take(it.index() as int).filter(pred),
            found == all.take(it.index() as int).contains(Node::Text(text@)),
    {
        let ghost i = it.index() as int;
        proof {
            reveal(Seq::filter);
            assert(all.take(i + 1).drop_last() =~= all.take(i));
            assert(all.take(i + 1).last() == x.node());
            assert(all.take(i + 1) =~= all.take(i).push(x.node()));
        }
        if is_text(&x, text) {
            found = true;
            assert(all.take(i + 1)[i] == Node::Text(text@));
        } else {
            let ghost before = nodes_of(kept@);
            kept.push(x);
            assert(nodes_of(kept@) =~= before.push(x.node()));
            proof {
                let longer = all.take(i + 1);
                if longer.contains(Node::Text(text@)) {
                    let j = choose|j: int| 0 <= j < longer.len() && longer[j] == Node::Text(text@);
                    assert(all.take(i)[j] == Node::Text(text@));
                }
            }
        }
    }
    assert(all.take(all.len() as int) =~= all);
    (kept, found)
}

} // verus!
