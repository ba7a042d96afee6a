//! Node payloads: the tagged union stored in each arena slot.

use vstd::prelude::*;

use crate::key::Node;
use crate::qname::QName;

verus! {

/// The payload of an element node: its name and its ordered children.
#[derive(Debug)]
pub struct ElementValue {
    pub(crate) name: QName,
    pub(crate) children: Vec<Node>,
}

/// The payload of a node, one variant per node kind. Processing instructions
/// carry no payload of their own and are never stored.
#[derive(Debug)]
pub enum NodeValue {
    Element(ElementValue),
    Text(String),
    CData(String),
    Comment(String),
    DocumentType(String),
}

impl ElementValue {
    pub closed spec fn spec_name(&self) -> QName {
        self.name
    }

    pub closed spec fn spec_children(&self) -> Seq<Node> {
        self.children@
    }
}

pub(crate) broadcast proof fn lemma_ev_name(ev: ElementValue)
    ensures
        #[trigger] ev.spec_name() == ev.name,
{
}

pub(crate) broadcast proof fn lemma_ev_children(ev: ElementValue)
    ensures
        #[trigger] ev.spec_children() == ev.children@,
{
}

/// Payloads of the same kind with the same content; children are compared as
/// handle sequences.
pub open spec fn value_like(v1: NodeValue, v2: NodeValue) -> bool {
    match (v1, v2) {
        (NodeValue::Element(e1), NodeValue::Element(e2)) => e1.spec_name() == e2.spec_name()
            && e1.spec_children() == e2.spec_children(),
        (NodeValue::Text(s1), NodeValue::Text(s2)) => s1@ == s2@,
        (NodeValue::CData(s1), NodeValue::CData(s2)) => s1@ == s2@,
        (NodeValue::Comment(s1), NodeValue::Comment(s2)) => s1@ == s2@,
        (NodeValue::DocumentType(s1), NodeValue::DocumentType(s2)) => s1@ == s2@,
        _ => false,
    }
}

impl NodeValue {
    pub fn as_element(&self) -> (r: Option<&ElementValue>)
        ensures
            match r {
                Some(e) => *self matches NodeValue::Element(ev) && *e == ev,
                None => !(*self matches NodeValue::Element(_)),
            },
    {
        match self {
            NodeValue::Element(e) => Some(e),
            _ => None,
        }
    }

    pub fn as_element_mut(&mut self) -> (r: Option<&mut ElementValue>)
        ensures
            match r {
                Some(e) => {
                    &&& *old(self) matches NodeValue::Element(ev) && *e == ev
                    &&& *final(self) == NodeValue::Element(*final(e))
                },
                None => {
                    &&& !(*old(self) matches NodeValue::Element(_))
                    &&& *final(self) == *old(self)
                },
            },
    {
        match self {
            NodeValue::Element(e) => Some(e),
            _ => None,
        }
    }
}

/// Copies a list of node handles.
pub(crate) fn clone_nodes(v: &Vec<Node>) -> (r: Vec<Node>)
    ensures
        r@ == v@,
{
    let mut r: Vec<Node> = Vec::new();
    let mut i: usize = 0;
    while i < v.len()
        invariant
            i <= v.len(),
            r@ == v@.take(i as int),
        decreases v.len() - i,
    {
        r.push(v[i]);
        proof {
            assert(v@.take(i + 1) =~= v@.take(i as int).push(v@[i as int]));
        }
        i += 1;
    }
    proof {
        assert(v@.take(v@.len() as int) =~= v@);
    }
    r
}

/// Copies an attribute list.
pub(crate) fn clone_attrs(v: &Vec<(QName, String)>) -> (r: Vec<(QName, String)>)
    ensures
        r@ == v@,
{
    let mut r: Vec<(QName, String)> = Vec::new();
    let mut i: usize = 0;
    while i < v.len()
        invariant
            i <= v.len(),
            r@ == v@.take(i as int),
        decreases v.len() - i,
    {
        let (k, val) = (&v[i].0, &v[i].1);
        r.push((k.clone(), val.clone()));
        proof {
            assert(v@[i as int] == (v@[i as int].0, v@[i as int].1));
            assert(v@.take(i + 1) =~= v@.take(i as int).push(v@[i as int]));
        }
        i += 1;
    }
    proof {
        assert(v@.take(v@.len() as int) =~= v@);
    }
    r
}

impl Clone for ElementValue {
    fn clone(&self) -> (r: Self)
        ensures
            r.spec_name() == self.spec_name(),
            r.spec_children() == self.spec_children(),
    {
        ElementValue { name: self.name.clone(), children: clone_nodes(&self.children) }
    }
}

impl Clone for NodeValue {
    fn clone(&self) -> (r: Self)
        ensures
            value_like(r, *self),
    {
        match self {
            NodeValue::Element(e) => NodeValue::Element(e.clone()),
            NodeValue::Text(s) => NodeValue::Text(s.clone()),
            NodeValue::CData(s) => NodeValue::CData(s.clone()),
            NodeValue::Comment(s) => NodeValue::Comment(s.clone()),
            NodeValue::DocumentType(s) => NodeValue::DocumentType(s.clone()),
        }
    }
}

} // verus!
