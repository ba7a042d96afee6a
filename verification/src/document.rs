//! The document: a root element in the node store, the lists of free-standing
//! nodes before and after it, and the optional XML declaration, together with
//! the well-formedness invariant every operation preserves.

use vstd::prelude::*;

use crate::arena::Arena;
use crate::attrs::dedup_attrs_exec;
use crate::element::NewElement;
use crate::element::Element;
use crate::key::CDataSection;
use crate::key::Comment;
use crate::key::DocKey;
use crate::key::DocumentType;
use crate::key::Node;
use crate::key::Text;
use crate::qname::QName;
use crate::value::clone_attrs;
use crate::value::clone_nodes;
use crate::value::ElementValue;
use crate::value::NodeValue;

verus! {

broadcast use crate::arena::lemma_arena_name_of, crate::arena::lemma_arena_children_of, crate::arena::Arena::lemma_live_bounded, crate::value::lemma_ev_name, crate::value::lemma_ev_children;

/// The XML declaration, with only the present fields rendered.
#[derive(Debug)]
pub struct Declaration {
    pub version: Option<String>,
    pub encoding: Option<String>,
    pub standalone: Option<String>,
}

impl Declaration {
    /// A `version="1.0" encoding="utf-8"` declaration.
    pub fn v1_0() -> (r: Declaration)
        ensures
            r.version matches Some(v) && v@ == "1.0"@,
            r.encoding matches Some(e) && e@ == "utf-8"@,
            r.standalone is None,
    {
        Declaration {
            version: Some("1.0".to_owned()),
            encoding: Some("utf-8".to_owned()),
            standalone: None,
        }
    }

    /// A `version="1.1" encoding="utf-8"` declaration.
    pub fn v1_1() -> (r: Declaration)
        ensures
            r.version matches Some(v) && v@ == "1.1"@,
            r.encoding matches Some(e) && e@ == "utf-8"@,
            r.standalone is None,
    {
        Declaration {
            version: Some("1.1".to_owned()),
            encoding: Some("utf-8".to_owned()),
            standalone: None,
        }
    }
}

impl Clone for Declaration {
    fn clone(&self) -> (r: Self)
        ensures
            match (r.version, self.version) {
                (Some(a), Some(b)) => a@ == b@,
                (None, None) => true,
                _ => false,
            },
            match (r.encoding, self.encoding) {
                (Some(a), Some(b)) => a@ == b@,
                (None, None) => true,
                _ => false,
            },
            match (r.standalone, self.standalone) {
                (Some(a), Some(b)) => a@ == b@,
                (None, None) => true,
                _ => false,
            },
    {
        Declaration {
            version: match &self.version {
                Some(s) => Some(s.clone()),
                None => None,
            },
            encoding: match &self.encoding {
                Some(s) => Some(s.clone()),
                None => None,
            },
            standalone: match &self.standalone {
                Some(s) => Some(s.clone()),
                None => None,
            },
        }
    }
}

/// An attribute table whose keys are well-formed and pairwise distinct.
pub open spec fn attrs_wf(attrs: Seq<(QName, String)>) -> bool {
    &&& forall|i: int| 0 <= i < attrs.len() ==> (#[trigger] attrs[i].0).wf()
    &&& forall|i: int, j: int|
        0 <= i < j < attrs.len() ==> (#[trigger] attrs[i].0)@ != (#[trigger] attrs[j].0)@
}

/// The document model.
#[derive(Debug)]
pub struct Document {
    pub(crate) arena: Arena,
    pub(crate) root_key: Element,
    pub(crate) before: Vec<Node>,
    pub(crate) after: Vec<Node>,
    pub(crate) decl: Option<Declaration>,
}

impl Document {
    pub(crate) open spec fn inner_live(self, k: DocKey) -> bool {
        self.arena.live(k)
    }

    /// The key resolves to a node of this document.
    pub closed spec fn live(self, k: DocKey) -> bool {
        self.inner_live(k)
    }

    pub(crate) open spec fn inner_is_element(self, k: DocKey) -> bool {
        self.arena.is_element(k)
    }

    /// The key resolves to an element node.
    pub closed spec fn is_element_key(self, k: DocKey) -> bool {
        self.inner_is_element(k)
    }

    pub(crate) open spec fn inner_value_of(self, k: DocKey) -> NodeValue {
        self.arena.value_of(k)
    }

    /// The payload under a live key.
    pub closed spec fn value_of(self, k: DocKey) -> NodeValue {
        self.inner_value_of(k)
    }

    pub(crate) open spec fn inner_name_of(self, k: DocKey) -> QName {
        self.arena.name_of(k)
    }

    /// The name of a live element.
    pub closed spec fn name_of(self, k: DocKey) -> QName {
        self.inner_name_of(k)
    }

    pub(crate) open spec fn inner_children_of(self, k: DocKey) -> Seq<Node> {
        self.arena.children_of(k)
    }

    /// The ordered children of a live element.
    pub closed spec fn children_of(self, k: DocKey) -> Seq<Node> {
        self.inner_children_of(k)
    }

    pub(crate) open spec fn inner_parent_of(self, k: DocKey) -> Option<Element> {
        self.arena.parent_of(k)
    }

    /// The parent entry of a live key.
    pub closed spec fn parent_of(self, k: DocKey) -> Option<Element> {
        self.inner_parent_of(k)
    }

    pub(crate) open spec fn inner_attrs_of(self, k: DocKey) -> Seq<(QName, String)> {
        self.arena.attrs_of(k)
    }

    /// The ordered attribute table of a live key.
    pub closed spec fn attrs_of(self, k: DocKey) -> Seq<(QName, String)> {
        self.inner_attrs_of(k)
    }

    pub(crate) open spec fn inner_root(self) -> Element {
        self.root_key
    }

    /// The root element handle.
    pub closed spec fn spec_root(self) -> Element {
        self.inner_root()
    }

    pub(crate) open spec fn inner_before(self) -> Seq<Node> {
        self.before@
    }

    /// The free-standing nodes preceding the root.
    pub closed spec fn spec_before(self) -> Seq<Node> {
        self.inner_before()
    }

    pub(crate) open spec fn inner_after(self) -> Seq<Node> {
        self.after@
    }

    /// The free-standing nodes following the root.
    pub closed spec fn spec_after(self) -> Seq<Node> {
        self.inner_after()
    }

    pub(crate) open spec fn inner_decl(self) -> Option<Declaration> {
        self.decl
    }

    /// The declaration, when one is set.
    pub closed spec fn spec_decl(self) -> Option<Declaration> {
        self.inner_decl()
    }

    pub(crate) open spec fn inner_fuel(self) -> nat {
        if self.arena.spec_slot_count() < usize::MAX {
            self.arena.spec_slot_count() as nat + 1
        } else {
            self.arena.spec_slot_count() as nat
        }
    }

    /// The traversal budget every rendering pass starts from: one more than
    /// the store's slot count, which no tree held in the store can exhaust.
    pub closed spec fn spec_fuel(self) -> nat {
        self.inner_fuel()
    }

    /// The typed handle whose kind agrees with the payload under the key.
    pub(crate) open spec fn handle_for(self, k: DocKey) -> Node {
        match self.arena.value_of(k) {
            NodeValue::Element(_) => Node::Element(Element(k)),
            NodeValue::Text(_) => Node::Text(Text(k)),
            NodeValue::CData(_) => Node::CDataSection(CDataSection(k)),
            NodeValue::Comment(_) => Node::Comment(Comment(k)),
            NodeValue::DocumentType(_) => Node::DocumentType(DocumentType(k)),
        }
    }

    /// The handle is live and its kind agrees with the payload it resolves
    /// to. No processing-instruction payload is ever stored, so such a handle
    /// never satisfies this.
    pub(crate) open spec fn handle_ok(self, n: Node) -> bool {
        &&& self.arena.live(n.as_key())
        &&& match n {
            Node::Element(_) => self.arena.value_of(n.as_key()) is Element,
            Node::Text(_) => self.arena.value_of(n.as_key()) is Text,
            Node::CDataSection(_) => self.arena.value_of(n.as_key()) is CData,
            Node::ProcessingInstruction(_) => false,
            Node::Comment(_) => self.arena.value_of(n.as_key()) is Comment,
            Node::DocumentType(_) => self.arena.value_of(n.as_key()) is DocumentType,
        }
    }

    /// Every member of every children list is a live, kind-correct,
    /// non-doctype handle whose parent entry names the listing element.
    pub(crate) open spec fn child_edges_ok(self) -> bool {
        forall|p: DocKey, i: int|
            #![trigger self.arena.children_of(p)[i]]
            self.arena.is_element(p) && 0 <= i < self.arena.children_of(p).len() ==> {
                let c = self.arena.children_of(p)[i];
                &&& self.handle_ok(c)
                &&& !(c is DocumentType)
                &&& self.arena.parent_of(c.as_key()) == Some(Element(p))
            }
    }

    /// No children list names the same node twice.
    pub(crate) open spec fn children_unique(self) -> bool {
        forall|p: DocKey, i: int, j: int|
            #![trigger self.arena.children_of(p)[i], self.arena.children_of(p)[j]]
            self.arena.is_element(p) && 0 <= i < j < self.arena.children_of(p).len()
                ==> self.arena.children_of(p)[i] != self.arena.children_of(p)[j]
    }

    /// A live node whose parent entry names a live element is listed among
    /// that element's children; the named parent is always a bounded key.
    pub(crate) open spec fn parent_edges_ok(self) -> bool {
        forall|k: DocKey|
            #![trigger self.arena.parent_of(k)]
            self.arena.live(k) && self.arena.parent_of(k) is Some ==> {
                let pe = self.arena.parent_of(k).unwrap();
                &&& self.arena.bounded(pe.0)
                &&& pe.0 != k
                &&& self.arena.live(pe.0) ==> (self.arena.is_element(pe.0)
                    && self.arena.children_of(pe.0).contains(self.handle_for(k)))
            }
    }

    /// The nodes around the root: live, kind-correct, never elements, with no
    /// parent entry, and no node listed twice.
    pub(crate) open spec fn floating_ok(self) -> bool {
        let all = self.before@ + self.after@;
        &&& forall|i: int|
            0 <= i < all.len() ==> {
                let n = #[trigger] all[i];
                &&& self.handle_ok(n)
                &&& !(n is Element)
                &&& self.arena.parent_of(n.as_key()) is None
            }
        &&& forall|i: int, j: int| 0 <= i < j < all.len() ==> all[i] != all[j]
    }

    /// Attribute tables hang off elements only and hold well-formed,
    /// pairwise-distinct keys; element names are well-formed.
    pub(crate) open spec fn records_ok(self) -> bool {
        forall|k: DocKey|
            #[trigger] self.arena.live(k) ==> {
                &&& (self.arena.attrs_of(k).len() > 0 ==> self.arena.is_element(k))
                &&& attrs_wf(self.arena.attrs_of(k))
                &&& (self.arena.is_element(k) ==> self.arena.name_of(k).wf())
            }
    }

    pub(crate) open spec fn inner_wf(self) -> bool {
        &&& self.arena.wf()
        &&& self.arena.is_element(self.root_key.0)
        &&& self.arena.parent_of(self.root_key.0) is None
        &&& self.child_edges_ok()
        &&& self.children_unique()
        &&& self.parent_edges_ok()
        &&& self.floating_ok()
        &&& self.records_ok()
    }

    /// The structural invariant of a document: every operation of the model
    /// requires and preserves it.
    pub closed spec fn wf(self) -> bool {
        self.inner_wf()
    }

    /// Creates a document holding only an empty root element named
    /// `root_name`; rejects an invalid name.
    pub fn new(root_name: &str) -> (r: Result<Document, crate::qname::Error>)
        ensures
            r is Ok <==> crate::qname::spec_valid_qname(root_name@),
            r matches Ok(d) ==> {
                &&& d.wf()
                &&& d.is_element_key(d.spec_root().0)
                &&& d.parent_of(d.spec_root().0) is None
                &&& d.name_of(d.spec_root().0)@ == root_name@
                &&& d.children_of(d.spec_root().0) == Seq::<Node>::empty()
                &&& d.attrs_of(d.spec_root().0) == Seq::<(QName, String)>::empty()
                &&& d.spec_before() == Seq::<Node>::empty()
                &&& d.spec_after() == Seq::<Node>::empty()
                &&& d.spec_decl() is None
            },
    {
        let name = match QName::new(root_name) {
            Ok(q) => q,
            Err(e) => {
                return Err(e);
            },
        };
        let mut arena = Arena::new();
        let root = arena.insert(NodeValue::Element(ElementValue { name, children: Vec::new() }));
        Ok(
            Document {
                arena,
                root_key: Element(root),
                before: Vec::new(),
                after: Vec::new(),
                decl: None,
            },
        )
    }

    /// The root element.
    pub fn root(&self) -> (r: Element)
        ensures
            r == self.spec_root(),
    {
        self.root_key
    }

    /// Replaces the declaration.
    pub fn set_declaration(&mut self, decl: Option<Declaration>)
        ensures
            final(self).spec_decl() == decl,
            final(self).wf() == old(self).wf(),
            Document::same_but_decl(*old(self), *final(self)),
    {
        self.decl = decl;
    }

    /// The current declaration.
    pub fn declaration(&self) -> (r: Option<&Declaration>)
        ensures
            match r {
                Some(d) => self.spec_decl() == Some(*d),
                None => self.spec_decl() is None,
            },
    {
        self.decl.as_ref()
    }

    /// The two documents agree on everything but the declaration.
    pub open spec fn same_but_decl(d1: Document, d2: Document) -> bool {
        &&& d2.spec_root() == d1.spec_root()
        &&& d2.spec_before() == d1.spec_before()
        &&& d2.spec_after() == d1.spec_after()
        &&& forall|k: DocKey| #[trigger] d2.live(k) == d1.live(k)
        &&& forall|k: DocKey|
            #[trigger] d1.live(k) ==> (d2.value_of(k) == d1.value_of(k) && d2.parent_of(k)
                == d1.parent_of(k) && d2.attrs_of(k) == d1.attrs_of(k))
    }

    /// The record under `h` reads the same in both documents.
    pub open spec fn unchanged_at(d1: Document, d2: Document, h: DocKey) -> bool {
        &&& d2.live(h) == d1.live(h)
        &&& d1.live(h) ==> (d2.value_of(h) == d1.value_of(h) && d2.parent_of(h) == d1.parent_of(
            h,
        ) && d2.attrs_of(h) == d1.attrs_of(h))
    }

    /// Root, surrounding lists and declaration are untouched.
    pub open spec fn same_shell(d1: Document, d2: Document) -> bool {
        &&& d2.spec_root() == d1.spec_root()
        &&& d2.spec_before() == d1.spec_before()
        &&& d2.spec_after() == d1.spec_after()
        &&& d2.spec_decl() == d1.spec_decl()
    }
}

/// The error a structural operation reports on a stale or foreign handle, or
/// on a name that is not a valid qualified name.
#[derive(Debug, PartialEq, Eq, Structural, Copy, Clone)]
pub enum DocError {
    StaleOrMissingHandle,
    InvalidQName,
}

pub(crate) proof fn lemma_push_contains<A>(s: Seq<A>, x: A, y: A)
    requires
        s.contains(y),
    ensures
        s.push(x).contains(y),
{
    let i = choose|i: int| 0 <= i < s.len() && s[i] == y;
    assert(s.push(x)[i] == y);
}

impl Document {
    /// A handle to a live element node of this document.
    pub open spec fn live_element(self, e: Element) -> bool {
        self.is_element_key(e.0)
    }

    /// True when the key is live and holds an element payload; the runtime
    /// side of `is_element_key`.
    pub fn check_element(&self, e: Element) -> (r: bool)
        ensures
            r == self.live_element(e),
    {
        proof {
            lemma_doc_is_element(*self, e.0);
        }
        match self.arena.value(e.0) {
            Some(v) => match v {
                NodeValue::Element(_) => true,
                _ => false,
            },
            None => false,
        }
    }

    /// Creates a node under a live element: stores the payload, registers the
    /// parent entry and the attribute table, and appends the handle to the
    /// parent's children.
    pub(crate) fn insert_child_node(
        &mut self,
        parent: Element,
        value: NodeValue,
        attrs: Vec<(QName, String)>,
    ) -> (r: Result<DocKey, DocError>)
        requires
            old(self).wf(),
            attrs_wf(attrs@),
            attrs@.len() > 0 ==> value is Element,
            !(value is DocumentType),
            value matches NodeValue::Element(ev) ==> ev.spec_children() == Seq::<Node>::empty()
                && ev.spec_name().wf(),
        ensures
            r is Ok <==> old(self).live_element(parent),
            r matches Err(_) ==> *final(self) == *old(self),
            r matches Ok(k) ==> {
                &&& final(self).wf()
                &&& !old(self).live(k)
                &&& forall|h: DocKey| #[trigger] old(self).live(h) ==> h != k
                &&& final(self).live(k)
                &&& final(self).value_of(k) == value
                &&& final(self).attrs_of(k) == attrs@
                &&& final(self).parent_of(k) == Some(parent)
                &&& final(self).children_of(parent.0) == old(self).children_of(parent.0).push(
                    final(self).handle_for(k),
                )
                &&& final(self).name_of(parent.0) == old(self).name_of(parent.0)
                &&& final(self).attrs_of(parent.0) == old(self).attrs_of(parent.0)
                &&& final(self).parent_of(parent.0) == old(self).parent_of(parent.0)
                &&& final(self).is_element_key(parent.0)
                &&& forall|h: DocKey|
                    h != k && h != parent.0 ==> #[trigger] Document::unchanged_at(
                        *old(self),
                        *final(self),
                        h,
                    )
                &&& Document::same_shell(*old(self), *final(self))
            },
    {
        broadcast use group_doc_bridge;

        if !self.check_element(parent) {
            return Err(DocError::StaleOrMissingHandle);
        }
        let ghost d0 = *self;
        let k = self.arena.insert(value);
        proof {
            assert(d0.arena.wf());
            assert(d0.arena.live(parent.0));
            assert(d0.arena.bounded(parent.0));
            assert(parent.0 != k);
            assert(self.arena.live(parent.0) == d0.arena.live(parent.0));
            assert(self.arena.is_element(parent.0));
            assert(self.arena.children_of(parent.0) == d0.arena.children_of(parent.0));
        }
        let ghost a1 = self.arena;
        self.arena.set_attrs(k, attrs);
        proof {
            assert(self.arena.live(parent.0) == a1.live(parent.0));
            assert(self.arena.is_element(parent.0));
            assert(self.arena.children_of(parent.0) == d0.arena.children_of(parent.0));
            assert(self.arena.value_of(k) == value);
            assert(self.arena.parent_of(parent.0) == a1.parent_of(parent.0));
            assert(self.arena.attrs_of(parent.0) == a1.attrs_of(parent.0));
        }
        let ghost a2 = self.arena;
        self.arena.set_parent(k, Some(parent));
        proof {
            assert(self.arena.live(parent.0) == a2.live(parent.0));
            assert(self.arena.is_element(parent.0));
            assert(self.arena.children_of(parent.0) == d0.arena.children_of(parent.0));
            assert(self.arena.value_of(k) == value);
            assert(self.arena.attrs_of(k) == attrs@);
            assert(self.arena.parent_of(k) == Some(parent));
            assert(self.arena.parent_of(parent.0) == a2.parent_of(parent.0));
            assert(self.arena.attrs_of(parent.0) == a2.attrs_of(parent.0));
        }
        let kids = match self.arena.children(parent.0) {
            Some(c) => clone_nodes(c),
            None => {
                proof {
                    assert(false);
                }
                Vec::new()
            },
        };
        let node = match self.arena.value(k) {
            Some(NodeValue::Element(_)) => Node::Element(Element(k)),
            Some(NodeValue::Text(_)) => Node::Text(Text(k)),
            Some(NodeValue::CData(_)) => Node::CDataSection(CDataSection(k)),
            Some(NodeValue::Comment(_)) => Node::Comment(Comment(k)),
            Some(NodeValue::DocumentType(_)) => Node::DocumentType(DocumentType(k)),
            None => {
                proof {
                    assert(false);
                }
                Node::Element(Element(k))
            },
        };
        let ghost a3 = self.arena;
        let mut kids2 = kids;
        kids2.push(node);
        self.arena.set_children(parent.0, kids2);
        proof {
            let d2 = *self;
            assert(d2.arena.live(k) == a3.live(k));
            assert(d2.arena.value_of(k) == a3.value_of(k));
            assert(d2.arena.attrs_of(k) == a3.attrs_of(k));
            assert(d2.arena.parent_of(k) == a3.parent_of(k));
            assert(node == d2.handle_for(k));
            assert(d2.arena.children_of(parent.0) =~= d0.arena.children_of(parent.0).push(node));
            assert forall|h: DocKey| #[trigger] d0.arena.bounded(h) implies h != k by {}
            assert forall|h: DocKey|
                h != k && h != parent.0 implies (#[trigger] d2.arena.live(h) == d0.arena.live(h) && (
                d0.arena.live(h) ==> d2.arena.value_of(h) == d0.arena.value_of(h)
                    && d2.arena.parent_of(h) == d0.arena.parent_of(h) && d2.arena.attrs_of(h)
                    == d0.arena.attrs_of(h))) by {
                assert(a1.live(h) == d0.arena.live(h));
                assert(a2.live(h) == a1.live(h));
                assert(a3.live(h) == a2.live(h));
                assert(d2.arena.live(h) == a3.live(h));
            }
            lemma_insert_child_wf(d0, d2, parent, k, node);
            assert forall|h: DocKey| #[trigger] d0.live(h) implies h != k by {
                assert(d0.arena.bounded(h));
            }
        }
        Ok(k)
    }
}

/// After creating `k` under `parent` and appending its handle, the document
/// invariant holds again.
proof fn lemma_insert_child_wf(d0: Document, d2: Document, parent: Element, k: DocKey, node: Node)
    requires
        d0.inner_wf(),
        d0.inner_is_element(parent.0),
        !d0.arena.live(k),
        forall|h: DocKey| #[trigger] d0.arena.bounded(h) ==> h != k,
        d2.arena.wf(),
        d2.arena.live(k),
        d2.arena.bounded(k),
        forall|h: DocKey| #[trigger] d0.arena.bounded(h) ==> d2.arena.bounded(h),
        !(d2.arena.value_of(k) is DocumentType),
        d2.arena.value_of(k) matches NodeValue::Element(ev) ==> ev.spec_children()
            == Seq::<Node>::empty() && ev.spec_name().wf(),
        attrs_wf(d2.arena.attrs_of(k)),
        d2.arena.attrs_of(k).len() > 0 ==> d2.arena.value_of(k) is Element,
        d2.arena.parent_of(k) == Some(parent),
        node == d2.handle_for(k),
        node.spec_as_key() == k,
        d2.arena.is_element(parent.0),
        d2.arena.children_of(parent.0) == d0.arena.children_of(parent.0).push(node),
        d2.arena.name_of(parent.0) == d0.arena.name_of(parent.0),
        d2.arena.attrs_of(parent.0) == d0.arena.attrs_of(parent.0),
        d2.arena.parent_of(parent.0) == d0.arena.parent_of(parent.0),
        d2.arena.value_of(parent.0) is Element,
        forall|h: DocKey|
            h != k && h != parent.0 ==> (#[trigger] d2.arena.live(h) == d0.arena.live(h) && (
            d0.arena.live(h) ==> d2.arena.value_of(h) == d0.arena.value_of(h)
                && d2.arena.parent_of(h) == d0.arena.parent_of(h) && d2.arena.attrs_of(h)
                == d0.arena.attrs_of(h))),
        d2.root_key == d0.root_key,
        d2.before@ == d0.before@,
        d2.after@ == d0.after@,
    ensures
        d2.inner_wf(),
{
    broadcast use crate::arena::lemma_arena_name_of, crate::arena::lemma_arena_children_of, crate::arena::Arena::lemma_live_bounded, crate::value::lemma_ev_name, crate::value::lemma_ev_children;

    // Any handle the old document stores is bounded there, hence distinct
    // from the fresh key and unchanged in the new document.
    let rk = d0.root_key.0;
    assert(d0.arena.live(rk));
    assert(d0.arena.bounded(rk));
    assert(rk != k);
    if rk != parent.0 {
        assert(d2.arena.live(rk) == d0.arena.live(rk));
        assert(d2.arena.value_of(rk) == d0.arena.value_of(rk));
        assert(d2.arena.parent_of(rk) == d0.arena.parent_of(rk));
    }
    assert(d2.arena.is_element(rk));
    assert(d2.arena.parent_of(rk) is None);
    assert forall|p: DocKey, i: int|
        #![trigger d2.arena.children_of(p)[i]]
        d2.arena.is_element(p) && 0 <= i < d2.arena.children_of(p).len() implies {
        let c = d2.arena.children_of(p)[i];
        &&& d2.handle_ok(c)
        &&& !(c is DocumentType)
        &&& d2.arena.parent_of(c.as_key()) == Some(Element(p))
    } by {
        let c = d2.arena.children_of(p)[i];
        if p == k {
            assert(d2.arena.children_of(p).len() == 0);
        } else if p == parent.0 && i == d0.arena.children_of(p).len() {
            assert(c == node);
        } else {
            if p == parent.0 {
                assert(d2.arena.children_of(p)[i] == d0.arena.children_of(p).push(node)[i]);
            }
            assert(d0.arena.is_element(p));
            assert(d0.arena.children_of(p)[i] == c);
            assert(d0.handle_ok(c));
            let ck = c.spec_as_key();
            assert(d0.arena.live(ck));
            assert(d0.arena.bounded(ck));
            assert(ck != k);
            if ck == parent.0 {
                assert(d0.arena.value_of(ck) is Element);
                assert(d2.arena.value_of(ck) is Element);
                assert(d2.arena.live(ck));
            } else {
                assert(d2.arena.live(ck) == d0.arena.live(ck));
                assert(d2.arena.value_of(ck) == d0.arena.value_of(ck));
            }
            assert(d2.handle_ok(c));
            assert(d2.arena.parent_of(ck) == d0.arena.parent_of(ck));
        }
    }
    assert forall|p: DocKey, i: int, j: int|
        #![trigger d2.arena.children_of(p)[i], d2.arena.children_of(p)[j]]
        d2.arena.is_element(p) && 0 <= i < j < d2.arena.children_of(p).len() implies d2.arena.children_of(
        p,
    )[i] != d2.arena.children_of(p)[j] by {
        if p != k && p == parent.0 {
            if j == d0.arena.children_of(p).len() {
                let c = d2.arena.children_of(p)[i];
                assert(d0.handle_ok(c));
                assert(c.spec_as_key() != k);
            }
        }
    }
    assert forall|h: DocKey|
        #![trigger d2.arena.parent_of(h)]
        d2.arena.live(h) && d2.arena.parent_of(h) is Some implies {
        let pe = d2.arena.parent_of(h).unwrap();
        &&& d2.arena.bounded(pe.0)
        &&& d2.arena.live(pe.0) ==> (d2.arena.is_element(pe.0) && d2.arena.children_of(
            pe.0,
        ).contains(d2.handle_for(h)))
    } by {
        let pe = d2.arena.parent_of(h).unwrap();
        if h == k {
            assert(pe == parent);
            assert(d2.arena.children_of(parent.0)[d0.arena.children_of(parent.0).len() as int]
                == node);
        } else if d2.arena.parent_of(h) is Some {
            assert(d0.arena.live(h));
            assert(d0.arena.parent_of(h) == d2.arena.parent_of(h));
            assert(pe.0 != k);
            if d2.arena.live(pe.0) {
                assert(d0.arena.live(pe.0));
                assert(d0.arena.children_of(pe.0).contains(d0.handle_for(h)));
                assert(d0.handle_for(h) == d2.handle_for(h));
                if pe.0 == parent.0 {
                    lemma_push_contains(d0.arena.children_of(pe.0), node, d2.handle_for(h));
                }
            }
        }
    }
    assert forall|i: int| #![trigger (d2.before@ + d2.after@)[i]] 0 <= i < (d2.before@ + d2.after@).len() implies {
        let n = (d2.before@ + d2.after@)[i];
        &&& d2.handle_ok(n)
        &&& !(n is Element)
        &&& d2.arena.parent_of(n.as_key()) is None
    } by {
        let all0 = d0.before@ + d0.after@;
        let n = (d2.before@ + d2.after@)[i];
        assert((d2.before@ + d2.after@) =~= all0);
        assert(n == all0[i]);
        assert(d0.handle_ok(n));
        assert(n.spec_as_key() != k);
        assert(n.spec_as_key() != parent.0) by {
            if n.spec_as_key() == parent.0 {
                assert(d0.arena.value_of(parent.0) is Element);
                assert(!(n is Element));
            }
        }
    }
    assert((d2.before@ + d2.after@) =~= (d0.before@ + d0.after@));
    assert forall|h: DocKey| #[trigger] d2.arena.live(h) implies {
        &&& (d2.arena.attrs_of(h).len() > 0 ==> d2.arena.is_element(h))
        &&& attrs_wf(d2.arena.attrs_of(h))
        &&& (d2.arena.is_element(h) ==> d2.arena.name_of(h).wf())
    } by {
        if h == k {
            assert(attrs_wf(d2.arena.attrs_of(h)));
        } else if h == parent.0 {
            assert(d0.arena.live(h));
            assert(d0.arena.is_element(h));
        } else {
            assert(d0.arena.live(h));
        }
    }
}

pub(crate) proof fn lemma_remove_keeps<A>(s: Seq<A>, i: int, j: int)
    requires
        0 <= i < s.len(),
        0 <= j < s.len(),
        j != i,
    ensures
        s.remove(i).contains(s[j]),
{
    if j < i {
        assert(s.remove(i)[j] == s[j]);
    } else {
        assert(s.remove(i)[j - 1] == s[j]);
    }
}

pub(crate) proof fn lemma_insert_keeps<A>(s: Seq<A>, i: int, x: A, j: int)
    requires
        0 <= i <= s.len(),
        0 <= j < s.len(),
    ensures
        s.insert(i, x).contains(s[j]),
{
    if j < i {
        assert(s.insert(i, x)[j] == s[j]);
    } else {
        assert(s.insert(i, x)[j + 1] == s[j]);
    }
}

impl Document {
    /// Finds the position of a handle in a live element's children.
    pub(crate) fn find_child(&self, parent: Element, node: Node) -> (r: Option<usize>)
        requires
            self.wf(),
        ensures
            match r {
                Some(i) => self.is_element_key(parent.0) && 0 <= i
                    < self.children_of(parent.0).len() && self.children_of(parent.0)[i as int]
                    == node && forall|j: int|
                    0 <= j < i ==> self.children_of(parent.0)[j] != node,
                None => !self.is_element_key(parent.0) || !self.children_of(parent.0).contains(
                    node,
                ),
            },
    {
        broadcast use group_doc_bridge;

        let kids = match self.arena.children(parent.0) {
            Some(c) => c,
            None => {
                return None;
            },
        };
        let mut i: usize = 0;
        while i < kids.len()
            invariant
                i <= kids@.len(),
                self.arena.is_element(parent.0),
                kids@ == self.arena.children_of(parent.0),
                forall|j: int| 0 <= j < i ==> kids@[j] != node,
            decreases kids@.len() - i,
        {
            if kids[i] == node {
                proof {
                    lemma_doc_is_element(*self, parent.0);
                    lemma_doc_children(*self, parent.0);
                }
                return Some(i);
            }
            i += 1;
        }
        proof {
            lemma_doc_is_element(*self, parent.0);
            lemma_doc_children(*self, parent.0);
            if self.arena.children_of(parent.0).contains(node) {
                let j = choose|j: int|
                    0 <= j < kids@.len() && self.arena.children_of(parent.0)[j] == node;
                assert(kids@[j] == node);
            }
        }
        None
    }

    /// Unsplices a live node from its parent's children and clears its parent
    /// entry; the node itself stays in the store.
    pub(crate) fn do_detach(&mut self, n: Node) -> (r: bool)
        requires
            old(self).wf(),
        ensures
            r == old(self).handle_ok_pub(n),
            !r ==> *final(self) == *old(self),
            r ==> {
                &&& final(self).wf()
                &&& final(self).live(n.spec_as_key())
                &&& final(self).value_of(n.spec_as_key()) == old(self).value_of(n.spec_as_key())
                &&& final(self).attrs_of(n.spec_as_key()) == old(self).attrs_of(n.spec_as_key())
                &&& final(self).parent_of(n.spec_as_key()) is None
                &&& match old(self).parent_of(n.spec_as_key()) {
                    Some(op) => {
                        &&& (old(self).is_element_key(op.0) ==> {
                            &&& final(self).children_of(op.0) == old(self).children_of(
                                op.0,
                            ).remove_value(n)
                            &&& final(self).is_element_key(op.0)
                            &&& final(self).name_of(op.0) == old(self).name_of(op.0)
                            &&& final(self).attrs_of(op.0) == old(self).attrs_of(op.0)
                            &&& final(self).parent_of(op.0) == old(self).parent_of(op.0)
                        })
                        &&& forall|h: DocKey|
                            h != n.spec_as_key() && h != op.0 ==> #[trigger] Document::unchanged_at(
                                *old(self),
                                *final(self),
                                h,
                            )
                    },
                    None => forall|h: DocKey|
                        h != n.spec_as_key() ==> #[trigger] Document::unchanged_at(
                            *old(self),
                            *final(self),
                            h,
                        ),
                }
                &&& Document::same_shell(*old(self), *final(self))
            },
    {
        broadcast use group_doc_bridge;

        if !self.check_handle(n) {
            return false;
        }
        let ghost d0 = *self;
        let k = n.as_key();
        match self.arena.parent(k) {
            Some(op) => {
                let pos = self.find_child(op, n);
                match pos {
                    Some(i) => {
                        let kids = match self.arena.children(op.0) {
                            Some(c) => clone_nodes(c),
                            None => {
                                proof {
                                    assert(false);
                                }
                                Vec::new()
                            },
                        };
                        let mut kids2 = kids;
                        kids2.remove(i);
                        let ghost a1 = self.arena;
                        self.arena.set_children(op.0, kids2);
                        proof {
                            assert(self.arena.live(k) == a1.live(k));
                        }
                        let ghost a2 = self.arena;
                        self.arena.set_parent(k, None);
                        proof {
                            let d2 = *self;
                            assert(d2.arena.live(op.0) == a2.live(op.0));
                            assert(d2.arena.is_element(op.0));
                            assert(d2.arena.children_of(op.0) == a2.children_of(op.0));
                            let kids0 = d0.arena.children_of(op.0);
                            assert(kids0.contains(n)) by {
                                assert(kids0[i as int] == n);
                            }
                            kids0.index_of_first_ensures(n);
                            let fi = kids0.index_of_first(n).unwrap();
                            assert(fi == i) by {
                                if fi < i {
                                    assert(kids0[fi] == n);
                                } else if fi > i {
                                    assert(kids0[i as int] != n);
                                }
                            }
                            assert(d2.arena.children_of(op.0) =~= kids0.remove_value(n));
                            lemma_detach_wf(d0, d2, op, n, i as int);
                            assert forall|h: DocKey|
                                h != n.spec_as_key() && h != op.0 implies Document::unchanged_at(
                                d0,
                                d2,
                                h,
                            ) by {
                                assert(a2.live(h) == a1.live(h));
                                assert(d2.arena.live(h) == a2.live(h));
                                if a1.live(h) {
                                    assert(a2.value_of(h) == a1.value_of(h));
                                    assert(a2.parent_of(h) == a1.parent_of(h));
                                    assert(a2.attrs_of(h) == a1.attrs_of(h));
                                    assert(d2.arena.value_of(h) == a2.value_of(h));
                                    assert(d2.arena.parent_of(h) == a2.parent_of(h));
                                    assert(d2.arena.attrs_of(h) == a2.attrs_of(h));
                                }
                            }
                        }
                        true
                    },
                    None => {
                        // The recorded parent is stale or no longer lists the
                        // node; only the parent entry is cleared.
                        let ghost d1 = *self;
                        self.arena.set_parent(k, None);
                        proof {
                            let d2 = *self;
                            assert(d1 == d0);
                            lemma_clear_parent_wf(d0, d2, n);
                            assert forall|h: DocKey|
                                h != n.spec_as_key() implies Document::unchanged_at(d0, d2, h) by {
                                assert(d2.arena.live(h) == d0.arena.live(h));
                            }
                        }
                        true
                    },
                }
            },
            None => {
                let ghost d1 = *self;
                self.arena.set_parent(k, None);
                proof {
                    let d2 = *self;
                    assert(d1 == d0);
                    lemma_clear_parent_wf(d0, d2, n);
                    assert forall|h: DocKey|
                        h != n.spec_as_key() implies Document::unchanged_at(d0, d2, h) by {
                        assert(d2.arena.live(h) == d0.arena.live(h));
                    }
                }
                true
            },
        }
    }

    /// The public face of `handle_ok`: the handle is live and of the right
    /// kind.
    pub closed spec fn handle_ok_pub(self, n: Node) -> bool {
        self.handle_ok(n)
    }

    /// The runtime test for `handle_ok_pub`.
    pub fn check_handle(&self, n: Node) -> (r: bool)
        ensures
            r == self.handle_ok_pub(n),
    {
        proof {
            lemma_doc_handle_ok(*self, n);
        }
        match self.arena.value(n.as_key()) {
            Some(v) => match (n, v) {
                (Node::Element(_), NodeValue::Element(_)) => true,
                (Node::Text(_), NodeValue::Text(_)) => true,
                (Node::CDataSection(_), NodeValue::CData(_)) => true,
                (Node::Comment(_), NodeValue::Comment(_)) => true,
                (Node::DocumentType(_), NodeValue::DocumentType(_)) => true,
                _ => false,
            },
            None => false,
        }
    }
}

pub(crate) broadcast proof fn lemma_doc_handle_ok(d: Document, n: Node)
    ensures
        #[trigger] d.handle_ok_pub(n) == d.handle_ok(n),
{
}

/// Clearing the parent entry of a live node that no live element lists keeps
/// the invariant.
proof fn lemma_clear_parent_wf(d0: Document, d2: Document, n: Node)
    requires
        d0.inner_wf(),
        d0.handle_ok(n),
        match d0.arena.parent_of(n.spec_as_key()) {
            Some(op) => !d0.arena.is_element(op.0) || !d0.arena.children_of(op.0).contains(n),
            None => true,
        },
        d2.arena.wf(),
        d2.arena.live(n.spec_as_key()),
        d2.arena.value_of(n.spec_as_key()) == d0.arena.value_of(n.spec_as_key()),
        d2.arena.attrs_of(n.spec_as_key()) == d0.arena.attrs_of(n.spec_as_key()),
        d2.arena.parent_of(n.spec_as_key()) is None,
        forall|h: DocKey|
            h != n.spec_as_key() ==> (#[trigger] d2.arena.live(h) == d0.arena.live(h) && (
            d0.arena.live(h) ==> d2.arena.value_of(h) == d0.arena.value_of(h)
                && d2.arena.parent_of(h) == d0.arena.parent_of(h) && d2.arena.attrs_of(h)
                == d0.arena.attrs_of(h))),
        forall|h: DocKey| #[trigger] d0.arena.bounded(h) ==> d2.arena.bounded(h),
        d2.root_key == d0.root_key,
        d2.before@ == d0.before@,
        d2.after@ == d0.after@,
    ensures
        d2.inner_wf(),
{
    broadcast use crate::arena::lemma_arena_name_of, crate::arena::lemma_arena_children_of, crate::arena::Arena::lemma_live_bounded;

    let nk = n.spec_as_key();
    let rk = d0.root_key.0;
    assert(d0.arena.live(rk));
    if rk != nk {
        assert(d2.arena.live(rk) == d0.arena.live(rk));
    }
    assert(d2.arena.is_element(rk));
    assert(d2.arena.parent_of(rk) is None);
    assert forall|p: DocKey, i: int|
        #![trigger d2.arena.children_of(p)[i]]
        d2.arena.is_element(p) && 0 <= i < d2.arena.children_of(p).len() implies {
        let c = d2.arena.children_of(p)[i];
        &&& d2.handle_ok(c)
        &&& !(c is DocumentType)
        &&& d2.arena.parent_of(c.as_key()) == Some(Element(p))
    } by {
        let c = d2.arena.children_of(p)[i];
        assert(d2.arena.live(p) == d0.arena.live(p) || p == nk);
        assert(d0.arena.is_element(p));
        assert(d2.arena.children_of(p) == d0.arena.children_of(p));
        assert(d0.arena.children_of(p)[i] == c);
        assert(d0.handle_ok(c));
        let ck = c.spec_as_key();
        assert(ck != nk) by {
            if ck == nk {
                assert(d0.arena.parent_of(ck) == Some(Element(p)));
                assert(d0.arena.children_of(p).contains(c));
            }
        }
        assert(d2.arena.live(ck) == d0.arena.live(ck));
    }
    assert forall|p: DocKey, i: int, j: int|
        #![trigger d2.arena.children_of(p)[i], d2.arena.children_of(p)[j]]
        d2.arena.is_element(p) && 0 <= i < j < d2.arena.children_of(p).len() implies d2.arena.children_of(
        p,
    )[i] != d2.arena.children_of(p)[j] by {
        assert(d0.arena.is_element(p));
        assert(d2.arena.children_of(p) == d0.arena.children_of(p));
    }
    assert forall|h: DocKey|
        #![trigger d2.arena.parent_of(h)]
        d2.arena.live(h) && d2.arena.parent_of(h) is Some implies {
        let pe = d2.arena.parent_of(h).unwrap();
        &&& d2.arena.bounded(pe.0)
        &&& d2.arena.live(pe.0) ==> (d2.arena.is_element(pe.0) && d2.arena.children_of(
            pe.0,
        ).contains(d2.handle_for(h)))
    } by {
        assert(h != nk);
        assert(d0.arena.live(h));
        let pe = d2.arena.parent_of(h).unwrap();
        assert(d0.arena.parent_of(h) == d2.arena.parent_of(h));
        if d2.arena.live(pe.0) {
            if pe.0 == nk {
                assert(d0.arena.live(pe.0));
            } else {
                assert(d2.arena.live(pe.0) == d0.arena.live(pe.0));
            }
            assert(d0.arena.children_of(pe.0).contains(d0.handle_for(h)));
            assert(d2.arena.children_of(pe.0) == d0.arena.children_of(pe.0));
            assert(d0.handle_for(h) == d2.handle_for(h));
        }
    }
    assert forall|i: int|
        #![trigger (d2.before@ + d2.after@)[i]]
        0 <= i < (d2.before@ + d2.after@).len() implies {
        let m = (d2.before@ + d2.after@)[i];
        &&& d2.handle_ok(m)
        &&& !(m is Element)
        &&& d2.arena.parent_of(m.as_key()) is None
    } by {
        let all0 = d0.before@ + d0.after@;
        assert((d2.before@ + d2.after@) =~= all0);
        let m = (d2.before@ + d2.after@)[i];
        assert(m == all0[i]);
        assert(d0.handle_ok(m));
        if m.spec_as_key() != nk {
            assert(d2.arena.live(m.spec_as_key()) == d0.arena.live(m.spec_as_key()));
        }
    }
    assert((d2.before@ + d2.after@) =~= (d0.before@ + d0.after@));
    assert forall|h: DocKey| #[trigger] d2.arena.live(h) implies {
        &&& (d2.arena.attrs_of(h).len() > 0 ==> d2.arena.is_element(h))
        &&& attrs_wf(d2.arena.attrs_of(h))
        &&& (d2.arena.is_element(h) ==> d2.arena.name_of(h).wf())
    } by {
        if h == nk {
            assert(d0.arena.live(h));
            assert(d2.arena.value_of(h) == d0.arena.value_of(h));
            assert(d2.arena.attrs_of(h) == d0.arena.attrs_of(h));
        } else {
            assert(d0.arena.live(h));
        }
    }
}

/// Unsplicing a node from the children list its parent entry names, then
/// clearing that entry, keeps the invariant.
/// The relation between the stores before and after unsplicing `n` from the
/// children of its recorded parent `op` at position `i` and clearing its
/// parent entry.
pub(crate) open spec fn detach_shape(
    d0: Document,
    d2: Document,
    op: Element,
    n: Node,
    i: int,
) -> bool {
    &&& d0.inner_wf()
    &&& d0.handle_ok(n)
    &&& d0.arena.parent_of(n.spec_as_key()) == Some(op)
    &&& d0.arena.is_element(op.0)
    &&& 0 <= i < d0.arena.children_of(op.0).len()
    &&& d0.arena.children_of(op.0)[i] == n
    &&& d2.arena.wf()
    &&& d2.arena.live(n.spec_as_key())
    &&& d2.arena.value_of(n.spec_as_key()) == d0.arena.value_of(n.spec_as_key())
    &&& d2.arena.attrs_of(n.spec_as_key()) == d0.arena.attrs_of(n.spec_as_key())
    &&& d2.arena.parent_of(n.spec_as_key()) is None
    &&& d2.arena.is_element(op.0)
    &&& d2.arena.children_of(op.0) == d0.arena.children_of(op.0).remove(i)
    &&& d2.arena.name_of(op.0) == d0.arena.name_of(op.0)
    &&& d2.arena.attrs_of(op.0) == d0.arena.attrs_of(op.0)
    &&& d2.arena.parent_of(op.0) == d0.arena.parent_of(op.0)
    &&& forall|h: DocKey|
        h != n.spec_as_key() && h != op.0 ==> (#[trigger] d2.arena.live(h) == d0.arena.live(h) && (
        d0.arena.live(h) ==> d2.arena.value_of(h) == d0.arena.value_of(h) && d2.arena.parent_of(h)
            == d0.arena.parent_of(h) && d2.arena.attrs_of(h) == d0.arena.attrs_of(h)))
    &&& forall|h: DocKey| #[trigger] d0.arena.bounded(h) ==> d2.arena.bounded(h)
    &&& d2.root_key == d0.root_key
    &&& d2.before@ == d0.before@
    &&& d2.after@ == d0.after@
}

#[verifier::rlimit(60)]
#[verifier::spinoff_prover]
proof fn lemma_detach_children(d0: Document, d2: Document, op: Element, n: Node, i: int)
    requires
        detach_shape(d0, d2, op, n, i),
    ensures
        d2.child_edges_ok(),
{
    broadcast use crate::arena::lemma_arena_name_of, crate::arena::lemma_arena_children_of, crate::arena::Arena::lemma_live_bounded;
    let nk = n.spec_as_key();
    let kids0 = d0.arena.children_of(op.0);
    assert forall|p: DocKey, i2: int|
        #![trigger d2.arena.children_of(p)[i2]]
        d2.arena.is_element(p) && 0 <= i2 < d2.arena.children_of(p).len() implies {
        let c = d2.arena.children_of(p)[i2];
        &&& d2.handle_ok(c)
        &&& !(c is DocumentType)
        &&& d2.arena.parent_of(c.as_key()) == Some(Element(p))
    } by {
        let c = d2.arena.children_of(p)[i2];
        if p == op.0 {
            let j = if i2 < i {
                i2
            } else {
                i2 + 1
            };
            assert(c == kids0[j]);
            assert(d0.handle_ok(c));
            assert(c.spec_as_key() != nk) by {
                if c.spec_as_key() == nk {
                    assert(c == n) by {
                        assert(d0.handle_ok(n));
                    }
                    assert(kids0[j] == kids0[i]);
                    assert(j != i);
                }
            }
            assert(d2.arena.live(c.spec_as_key()) == d0.arena.live(c.spec_as_key()));
            assert(d2.arena.parent_of(c.spec_as_key()) == d0.arena.parent_of(c.spec_as_key()));
        } else {
            assert(d0.arena.is_element(p)) by {
                if p != nk {
                    assert(d2.arena.live(p) == d0.arena.live(p));
                }
            }
            assert(d2.arena.children_of(p) == d0.arena.children_of(p));
            assert(d0.arena.children_of(p)[i2] == c);
            assert(d0.handle_ok(c));
            assert(c.spec_as_key() != nk) by {
                if c.spec_as_key() == nk {
                    assert(c == n);
                    assert(d0.arena.parent_of(nk) == Some(Element(p)));
                }
            }
            assert(d2.arena.live(c.spec_as_key()) == d0.arena.live(c.spec_as_key()));
            assert(d2.arena.parent_of(c.spec_as_key()) == d0.arena.parent_of(c.spec_as_key()));
        }
    }
}

#[verifier::rlimit(60)]
#[verifier::spinoff_prover]
proof fn lemma_detach_unique(d0: Document, d2: Document, op: Element, n: Node, i: int)
    requires
        detach_shape(d0, d2, op, n, i),
    ensures
        d2.children_unique(),
{
    broadcast use crate::arena::lemma_arena_name_of, crate::arena::lemma_arena_children_of, crate::arena::Arena::lemma_live_bounded;
    let nk = n.spec_as_key();
    let kids0 = d0.arena.children_of(op.0);
    assert forall|p: DocKey, i2: int, j2: int|
        #![trigger d2.arena.children_of(p)[i2], d2.arena.children_of(p)[j2]]
        d2.arena.is_element(p) && 0 <= i2 < j2 < d2.arena.children_of(p).len() implies d2.arena.children_of(
        p,
    )[i2] != d2.arena.children_of(p)[j2] by {
        if p == op.0 {
            let a = if i2 < i {
                i2
            } else {
                i2 + 1
            };
            let b = if j2 < i {
                j2
            } else {
                j2 + 1
            };
            assert(d2.arena.children_of(p)[i2] == kids0[a]);
            assert(d2.arena.children_of(p)[j2] == kids0[b]);
        } else {
            assert(d0.arena.is_element(p)) by {
                if p != nk {
                    assert(d2.arena.live(p) == d0.arena.live(p));
                }
            }
            assert(d2.arena.children_of(p) == d0.arena.children_of(p));
        }
    }
}

#[verifier::rlimit(60)]
#[verifier::spinoff_prover]
proof fn lemma_detach_parents(d0: Document, d2: Document, op: Element, n: Node, i: int)
    requires
        detach_shape(d0, d2, op, n, i),
    ensures
        d2.parent_edges_ok(),
{
    broadcast use crate::arena::lemma_arena_name_of, crate::arena::lemma_arena_children_of, crate::arena::Arena::lemma_live_bounded;
    let nk = n.spec_as_key();
    let kids0 = d0.arena.children_of(op.0);
    assert forall|h: DocKey|
        #![trigger d2.arena.parent_of(h)]
        d2.arena.live(h) && d2.arena.parent_of(h) is Some implies {
        let pe = d2.arena.parent_of(h).unwrap();
        &&& d2.arena.bounded(pe.0)
        &&& d2.arena.live(pe.0) ==> (d2.arena.is_element(pe.0) && d2.arena.children_of(
            pe.0,
        ).contains(d2.handle_for(h)))
    } by {
        assert(h != nk);
        if h != op.0 {
            assert(d2.arena.live(h) == d0.arena.live(h));
        }
        assert(d0.arena.live(h));
        assert(d0.arena.parent_of(h) == d2.arena.parent_of(h));
        let pe = d2.arena.parent_of(h).unwrap();
        if d2.arena.live(pe.0) {
            if pe.0 != nk && pe.0 != op.0 {
                assert(d2.arena.live(pe.0) == d0.arena.live(pe.0));
            }
            assert(d0.arena.live(pe.0));
            assert(d0.arena.children_of(pe.0).contains(d0.handle_for(h)));
            assert(d0.handle_for(h) == d2.handle_for(h));
            if pe.0 == op.0 {
                let j = choose|j: int| 0 <= j < kids0.len() && kids0[j] == d0.handle_for(h);
                assert(j != i) by {
                    if j == i {
                        assert(d0.handle_for(h) == n);
                        assert(n.spec_as_key() == h);
                    }
                }
                lemma_remove_keeps(kids0, i, j);
            } else {
                assert(d2.arena.children_of(pe.0) == d0.arena.children_of(pe.0));
            }
        }
    }
}

#[verifier::rlimit(60)]
#[verifier::spinoff_prover]
proof fn lemma_detach_floating(d0: Document, d2: Document, op: Element, n: Node, i: int)
    requires
        detach_shape(d0, d2, op, n, i),
    ensures
        d2.floating_ok(),
{
    broadcast use crate::arena::lemma_arena_name_of, crate::arena::lemma_arena_children_of, crate::arena::Arena::lemma_live_bounded;
    let nk = n.spec_as_key();
    let kids0 = d0.arena.children_of(op.0);
    assert forall|i2: int|
        #![trigger (d2.before@ + d2.after@)[i2]]
        0 <= i2 < (d2.before@ + d2.after@).len() implies {
        let m = (d2.before@ + d2.after@)[i2];
        &&& d2.handle_ok(m)
        &&& !(m is Element)
        &&& d2.arena.parent_of(m.as_key()) is None
    } by {
        let all0 = d0.before@ + d0.after@;
        assert((d2.before@ + d2.after@) =~= all0);
        let m = (d2.before@ + d2.after@)[i2];
        assert(m == all0[i2]);
        assert(d0.handle_ok(m));
        assert(m.spec_as_key() != nk) by {
            if m.spec_as_key() == nk {
                assert(d0.arena.parent_of(m.spec_as_key()) is None);
            }
        }
        if m.spec_as_key() != op.0 {
            assert(d2.arena.live(m.spec_as_key()) == d0.arena.live(m.spec_as_key()));
        }
    }
    assert((d2.before@ + d2.after@) =~= (d0.before@ + d0.after@));
}

#[verifier::rlimit(60)]
#[verifier::spinoff_prover]
proof fn lemma_detach_records(d0: Document, d2: Document, op: Element, n: Node, i: int)
    requires
        detach_shape(d0, d2, op, n, i),
    ensures
        d2.records_ok(),
{
    broadcast use crate::arena::lemma_arena_name_of, crate::arena::lemma_arena_children_of, crate::arena::Arena::lemma_live_bounded;
    let nk = n.spec_as_key();
    let kids0 = d0.arena.children_of(op.0);
    assert forall|h: DocKey| #[trigger] d2.arena.live(h) implies {
        &&& (d2.arena.attrs_of(h).len() > 0 ==> d2.arena.is_element(h))
        &&& attrs_wf(d2.arena.attrs_of(h))
        &&& (d2.arena.is_element(h) ==> d2.arena.name_of(h).wf())
    } by {
        if h != nk && h != op.0 {
            assert(d2.arena.live(h) == d0.arena.live(h));
        }
        assert(d0.arena.live(h));
    }

}

/// Unsplicing a node from the children list its parent entry names, then
/// clearing that entry, keeps the invariant.
proof fn lemma_detach_wf(d0: Document, d2: Document, op: Element, n: Node, i: int)
    requires
        detach_shape(d0, d2, op, n, i),
    ensures
        d2.inner_wf(),
{
    broadcast use crate::arena::lemma_arena_name_of, crate::arena::lemma_arena_children_of, crate::arena::Arena::lemma_live_bounded;

    let nk = n.spec_as_key();
    let kids0 = d0.arena.children_of(op.0);
    let rk = d0.root_key.0;
    assert(d0.arena.live(rk));
    assert(rk != nk) by {
        if rk == nk {
            assert(d0.arena.parent_of(rk) is None);
        }
    }
    if rk != op.0 {
        assert(d2.arena.live(rk) == d0.arena.live(rk));
    }
    assert(d2.arena.is_element(rk));
    assert(d2.arena.parent_of(rk) is None);
    // Every handle in any children list of d0 with the same key as n is n
    // itself, because kinds agree with the payload.
    lemma_detach_children(d0, d2, op, n, i);
    lemma_detach_unique(d0, d2, op, n, i);
    lemma_detach_parents(d0, d2, op, n, i);
    lemma_detach_floating(d0, d2, op, n, i);
    lemma_detach_records(d0, d2, op, n, i);
}


/// The relation between the stores before and after replacing the children
/// list of the live element `p` by a rearrangement of the same handles.
pub(crate) open spec fn reorder_shape(d0: Document, d2: Document, p: Element) -> bool {
    &&& d0.inner_wf()
    &&& d0.arena.is_element(p.0)
    &&& d2.arena.wf()
    &&& d2.arena.is_element(p.0)
    &&& d2.arena.name_of(p.0) == d0.arena.name_of(p.0)
    &&& d2.arena.attrs_of(p.0) == d0.arena.attrs_of(p.0)
    &&& d2.arena.parent_of(p.0) == d0.arena.parent_of(p.0)
    &&& forall|i: int|
        0 <= i < d2.arena.children_of(p.0).len() ==> d0.arena.children_of(p.0).contains(
            #[trigger] d2.arena.children_of(p.0)[i],
        )
    &&& forall|i: int, j: int|
        #![trigger d2.arena.children_of(p.0)[i], d2.arena.children_of(p.0)[j]]
        0 <= i < j < d2.arena.children_of(p.0).len() ==> d2.arena.children_of(p.0)[i]
            != d2.arena.children_of(p.0)[j]
    &&& forall|x: Node|
        d0.arena.children_of(p.0).contains(x) ==> d2.arena.children_of(p.0).contains(x)
    &&& forall|h: DocKey|
        h != p.0 ==> (#[trigger] d2.arena.live(h) == d0.arena.live(h) && (d0.arena.live(h)
            ==> d2.arena.value_of(h) == d0.arena.value_of(h) && d2.arena.parent_of(h)
            == d0.arena.parent_of(h) && d2.arena.attrs_of(h) == d0.arena.attrs_of(h)))
    &&& d2.arena.live(p.0) == d0.arena.live(p.0)
    &&& forall|h: DocKey| #[trigger] d0.arena.bounded(h) ==> d2.arena.bounded(h)
    &&& d2.root_key == d0.root_key
    &&& d2.before@ == d0.before@
    &&& d2.after@ == d0.after@
}

/// Rearranging a children list, keeping exactly the same handles, keeps the
/// invariant.
#[verifier::rlimit(100)]
#[verifier::spinoff_prover]
pub(crate) proof fn lemma_reorder_children_wf(d0: Document, d2: Document, p: Element)
    requires
        reorder_shape(d0, d2, p),
    ensures
        d2.inner_wf(),
{
    broadcast use crate::arena::lemma_arena_name_of, crate::arena::lemma_arena_children_of, crate::arena::Arena::lemma_live_bounded;

    let rk = d0.root_key.0;
    assert(d0.arena.live(rk));
    if rk != p.0 {
        assert(d2.arena.live(rk) == d0.arena.live(rk));
    }
    assert(d2.arena.is_element(rk));
    assert(d2.arena.parent_of(rk) is None);
    assert forall|q: DocKey, i: int|
        #![trigger d2.arena.children_of(q)[i]]
        d2.arena.is_element(q) && 0 <= i < d2.arena.children_of(q).len() implies {
        let c = d2.arena.children_of(q)[i];
        &&& d2.handle_ok(c)
        &&& !(c is DocumentType)
        &&& d2.arena.parent_of(c.as_key()) == Some(Element(q))
    } by {
        let c = d2.arena.children_of(q)[i];
        if q != p.0 {
            assert(d2.arena.live(q) == d0.arena.live(q));
        }
        assert(d0.arena.is_element(q));
        if q == p.0 {
            assert(d0.arena.children_of(q).contains(c));
            let j = choose|j: int|
                0 <= j < d0.arena.children_of(q).len() && d0.arena.children_of(q)[j] == c;
            assert(d0.arena.children_of(q)[j] == c);
        } else {
            assert(d2.arena.children_of(q) == d0.arena.children_of(q));
            assert(d0.arena.children_of(q)[i] == c);
        }
        assert(d0.handle_ok(c));
        let ck = c.spec_as_key();
        if ck != p.0 {
            assert(d2.arena.live(ck) == d0.arena.live(ck));
        }
        assert(d2.handle_ok(c));
        assert(d2.arena.parent_of(ck) == d0.arena.parent_of(ck));
    }
    assert forall|h: DocKey|
        #![trigger d2.arena.parent_of(h)]
        d2.arena.live(h) && d2.arena.parent_of(h) is Some implies {
        let pe = d2.arena.parent_of(h).unwrap();
        &&& d2.arena.bounded(pe.0)
        &&& pe.0 != h
        &&& d2.arena.live(pe.0) ==> (d2.arena.is_element(pe.0) && d2.arena.children_of(
            pe.0,
        ).contains(d2.handle_for(h)))
    } by {
        if h != p.0 {
            assert(d2.arena.live(h) == d0.arena.live(h));
        }
        assert(d0.arena.live(h));
        assert(d0.arena.parent_of(h) == d2.arena.parent_of(h));
        let pe = d2.arena.parent_of(h).unwrap();
        if d2.arena.live(pe.0) {
            if pe.0 != p.0 {
                assert(d2.arena.live(pe.0) == d0.arena.live(pe.0));
            }
            assert(d0.arena.live(pe.0));
            assert(d0.arena.children_of(pe.0).contains(d0.handle_for(h)));
            assert(d0.handle_for(h) == d2.handle_for(h));
        }
    }
    assert forall|i: int|
        #![trigger (d2.before@ + d2.after@)[i]]
        0 <= i < (d2.before@ + d2.after@).len() implies {
        let m = (d2.before@ + d2.after@)[i];
        &&& d2.handle_ok(m)
        &&& !(m is Element)
        &&& d2.arena.parent_of(m.as_key()) is None
    } by {
        let all0 = d0.before@ + d0.after@;
        assert((d2.before@ + d2.after@) =~= all0);
        let m = (d2.before@ + d2.after@)[i];
        assert(m == all0[i]);
        assert(d0.handle_ok(m));
        assert(m.spec_as_key() != p.0) by {
            if m.spec_as_key() == p.0 {
                assert(d0.arena.value_of(p.0) is Element);
            }
        }
        assert(d2.arena.live(m.spec_as_key()) == d0.arena.live(m.spec_as_key()));
        assert(d2.arena.value_of(m.spec_as_key()) == d0.arena.value_of(m.spec_as_key()));
        assert(d2.arena.parent_of(m.spec_as_key()) == d0.arena.parent_of(m.spec_as_key()));
    }
    assert((d2.before@ + d2.after@) =~= (d0.before@ + d0.after@));
    assert forall|h: DocKey| #[trigger] d2.arena.live(h) implies {
        &&& (d2.arena.attrs_of(h).len() > 0 ==> d2.arena.is_element(h))
        &&& attrs_wf(d2.arena.attrs_of(h))
        &&& (d2.arena.is_element(h) ==> d2.arena.name_of(h).wf())
    } by {
        if h != p.0 {
            assert(d2.arena.live(h) == d0.arena.live(h));
        }
        assert(d0.arena.live(h));
    }
}

/// The relation between the stores before and after giving the detached live
/// element `e` the parent `p` and appending its handle to `p`'s children.
pub(crate) open spec fn attach_shape(d0: Document, d2: Document, p: Element, e: Element) -> bool {
    &&& d0.inner_wf()
    &&& d0.arena.is_element(p.0)
    &&& d0.arena.is_element(e.0)
    &&& d0.arena.parent_of(e.0) is None
    &&& e.0 != d0.root_key.0
    &&& e.0 != p.0
    &&& d2.arena.wf()
    &&& d2.arena.live(e.0)
    &&& d2.arena.value_of(e.0) == d0.arena.value_of(e.0)
    &&& d2.arena.attrs_of(e.0) == d0.arena.attrs_of(e.0)
    &&& d2.arena.parent_of(e.0) == Some(p)
    &&& d2.arena.is_element(p.0)
    &&& d2.arena.children_of(p.0) == d0.arena.children_of(p.0).push(Node::Element(e))
    &&& d2.arena.name_of(p.0) == d0.arena.name_of(p.0)
    &&& d2.arena.attrs_of(p.0) == d0.arena.attrs_of(p.0)
    &&& d2.arena.parent_of(p.0) == d0.arena.parent_of(p.0)
    &&& forall|h: DocKey|
        h != e.0 && h != p.0 ==> (#[trigger] d2.arena.live(h) == d0.arena.live(h) && (
        d0.arena.live(h) ==> d2.arena.value_of(h) == d0.arena.value_of(h) && d2.arena.parent_of(h)
            == d0.arena.parent_of(h) && d2.arena.attrs_of(h) == d0.arena.attrs_of(h)))
    &&& forall|h: DocKey| #[trigger] d0.arena.bounded(h) ==> d2.arena.bounded(h)
    &&& d2.root_key == d0.root_key
    &&& d2.before@ == d0.before@
    &&& d2.after@ == d0.after@
}

/// Attaching a detached element under a live parent keeps the invariant.
#[verifier::rlimit(100)]
#[verifier::spinoff_prover]
proof fn lemma_attach_wf(d0: Document, d2: Document, p: Element, e: Element)
    requires
        attach_shape(d0, d2, p, e),
    ensures
        d2.inner_wf(),
{
    broadcast use crate::arena::lemma_arena_name_of, crate::arena::lemma_arena_children_of, crate::arena::Arena::lemma_live_bounded;

    let node = Node::Element(e);
    let kids0 = d0.arena.children_of(p.0);
    let rk = d0.root_key.0;
    assert(d0.arena.live(rk));
    if rk != p.0 {
        assert(d2.arena.live(rk) == d0.arena.live(rk));
    }
    assert(d2.arena.is_element(rk));
    assert(d2.arena.parent_of(rk) is None);
    // A detached element is listed by no live element.
    assert forall|q: DocKey, j: int|
        #![trigger d0.arena.children_of(q)[j]]
        d0.arena.is_element(q) && 0 <= j < d0.arena.children_of(q).len() implies d0.arena.children_of(
        q,
    )[j].spec_as_key() != e.0 by {
        let c = d0.arena.children_of(q)[j];
        if c.spec_as_key() == e.0 {
            assert(d0.arena.parent_of(c.as_key()) == Some(Element(q)));
        }
    }
    assert forall|q: DocKey, i: int|
        #![trigger d2.arena.children_of(q)[i]]
        d2.arena.is_element(q) && 0 <= i < d2.arena.children_of(q).len() implies {
        let c = d2.arena.children_of(q)[i];
        &&& d2.handle_ok(c)
        &&& !(c is DocumentType)
        &&& d2.arena.parent_of(c.as_key()) == Some(Element(q))
    } by {
        let c = d2.arena.children_of(q)[i];
        if q != p.0 && q != e.0 {
            assert(d2.arena.live(q) == d0.arena.live(q));
        }
        assert(d0.arena.is_element(q));
        if q == p.0 && i == kids0.len() {
            assert(c == node);
            assert(d2.arena.value_of(e.0) is Element);
        } else {
            if q == p.0 {
                assert(c == kids0[i]);
            } else {
                assert(d2.arena.children_of(q) == d0.arena.children_of(q));
                assert(d0.arena.children_of(q)[i] == c);
            }
            assert(d0.handle_ok(c));
            let ck = c.spec_as_key();
            assert(ck != e.0);
            if ck != p.0 {
                assert(d2.arena.live(ck) == d0.arena.live(ck));
            }
            assert(d2.handle_ok(c));
            assert(d2.arena.parent_of(ck) == d0.arena.parent_of(ck));
        }
    }
    assert forall|q: DocKey, i: int, j: int|
        #![trigger d2.arena.children_of(q)[i], d2.arena.children_of(q)[j]]
        d2.arena.is_element(q) && 0 <= i < j < d2.arena.children_of(q).len() implies d2.arena.children_of(
        q,
    )[i] != d2.arena.children_of(q)[j] by {
        if q != p.0 && q != e.0 {
            assert(d2.arena.live(q) == d0.arena.live(q));
        }
        assert(d0.arena.is_element(q));
        if q == p.0 && j == kids0.len() {
            assert(d2.arena.children_of(q)[i] == kids0[i]);
            assert(kids0[i].spec_as_key() != e.0);
        } else if q == p.0 {
            assert(d2.arena.children_of(q)[i] == kids0[i]);
            assert(d2.arena.children_of(q)[j] == kids0[j]);
        } else {
            assert(d2.arena.children_of(q) == d0.arena.children_of(q));
        }
    }
    assert forall|h: DocKey|
        #![trigger d2.arena.parent_of(h)]
        d2.arena.live(h) && d2.arena.parent_of(h) is Some implies {
        let pe = d2.arena.parent_of(h).unwrap();
        &&& d2.arena.bounded(pe.0)
        &&& pe.0 != h
        &&& d2.arena.live(pe.0) ==> (d2.arena.is_element(pe.0) && d2.arena.children_of(
            pe.0,
        ).contains(d2.handle_for(h)))
    } by {
        let pe = d2.arena.parent_of(h).unwrap();
        if h == e.0 {
            assert(pe == p);
            assert(d0.arena.live(p.0));
            assert(d2.arena.children_of(p.0)[kids0.len() as int] == node);
            assert(d2.handle_for(h) == node);
        } else {
            if h != p.0 {
                assert(d2.arena.live(h) == d0.arena.live(h));
            }
            assert(d0.arena.live(h));
            assert(d0.arena.parent_of(h) == d2.arena.parent_of(h));
            if d2.arena.live(pe.0) {
                if pe.0 != p.0 && pe.0 != e.0 {
                    assert(d2.arena.live(pe.0) == d0.arena.live(pe.0));
                }
                assert(d0.arena.live(pe.0));
                assert(d0.arena.children_of(pe.0).contains(d0.handle_for(h)));
                assert(d0.handle_for(h) == d2.handle_for(h));
                if pe.0 == p.0 {
                    lemma_push_contains(kids0, node, d2.handle_for(h));
                } else {
                    assert(d2.arena.children_of(pe.0) == d0.arena.children_of(pe.0));
                }
            }
        }
    }
    assert forall|i: int|
        #![trigger (d2.before@ + d2.after@)[i]]
        0 <= i < (d2.before@ + d2.after@).len() implies {
        let m = (d2.before@ + d2.after@)[i];
        &&& d2.handle_ok(m)
        &&& !(m is Element)
        &&& d2.arena.parent_of(m.as_key()) is None
    } by {
        let all0 = d0.before@ + d0.after@;
        assert((d2.before@ + d2.after@) =~= all0);
        let m = (d2.before@ + d2.after@)[i];
        assert(m == all0[i]);
        assert(d0.handle_ok(m));
        assert(m.spec_as_key() != e.0) by {
            if m.spec_as_key() == e.0 {
                assert(d0.arena.value_of(e.0) is Element);
            }
        }
        assert(m.spec_as_key() != p.0) by {
            if m.spec_as_key() == p.0 {
                assert(d0.arena.value_of(p.0) is Element);
            }
        }
        assert(d2.arena.live(m.spec_as_key()) == d0.arena.live(m.spec_as_key()));
        assert(d2.arena.value_of(m.spec_as_key()) == d0.arena.value_of(m.spec_as_key()));
        assert(d2.arena.parent_of(m.spec_as_key()) == d0.arena.parent_of(m.spec_as_key()));
    }
    assert((d2.before@ + d2.after@) =~= (d0.before@ + d0.after@));
    assert forall|h: DocKey| #[trigger] d2.arena.live(h) implies {
        &&& (d2.arena.attrs_of(h).len() > 0 ==> d2.arena.is_element(h))
        &&& attrs_wf(d2.arena.attrs_of(h))
        &&& (d2.arena.is_element(h) ==> d2.arena.name_of(h).wf())
    } by {
        if h != e.0 && h != p.0 {
            assert(d2.arena.live(h) == d0.arena.live(h));
        }
        assert(d0.arena.live(h));
    }
}

/// The relation between the stores before and after unsplicing the child `n`
/// of the live element `p` at position `i` and freeing its slot.
pub(crate) open spec fn remove_free_shape(
    d0: Document,
    d2: Document,
    p: Element,
    n: Node,
    i: int,
) -> bool {
    &&& d0.inner_wf()
    &&& d0.arena.is_element(p.0)
    &&& 0 <= i < d0.arena.children_of(p.0).len()
    &&& d0.arena.children_of(p.0)[i] == n
    &&& d2.arena.wf()
    &&& !d2.arena.live(n.spec_as_key())
    &&& d2.arena.is_element(p.0)
    &&& d2.arena.children_of(p.0) == d0.arena.children_of(p.0).remove(i)
    &&& d2.arena.name_of(p.0) == d0.arena.name_of(p.0)
    &&& d2.arena.attrs_of(p.0) == d0.arena.attrs_of(p.0)
    &&& d2.arena.parent_of(p.0) == d0.arena.parent_of(p.0)
    &&& forall|h: DocKey|
        h != n.spec_as_key() && h != p.0 ==> (#[trigger] d2.arena.live(h) == d0.arena.live(h) && (
        d0.arena.live(h) ==> d2.arena.value_of(h) == d0.arena.value_of(h) && d2.arena.parent_of(h)
            == d0.arena.parent_of(h) && d2.arena.attrs_of(h) == d0.arena.attrs_of(h)))
    &&& forall|h: DocKey| #[trigger] d0.arena.bounded(h) ==> d2.arena.bounded(h)
    &&& d2.root_key == d0.root_key
    &&& d2.before@ == d0.before@
    &&& d2.after@ == d0.after@
}

/// Removing a listed child and freeing its slot keeps the invariant. The
/// freed node's own children, if any, stay in the store as detached orphans
/// whose parent entries name a dead key.
#[verifier::rlimit(100)]
#[verifier::spinoff_prover]
proof fn lemma_remove_free_wf(d0: Document, d2: Document, p: Element, n: Node, i: int)
    requires
        remove_free_shape(d0, d2, p, n, i),
    ensures
        d2.inner_wf(),
{
    broadcast use crate::arena::lemma_arena_name_of, crate::arena::lemma_arena_children_of, crate::arena::Arena::lemma_live_bounded;

    let nk = n.spec_as_key();
    let kids0 = d0.arena.children_of(p.0);
    assert(d0.handle_ok(n));
    assert(d0.arena.parent_of(nk) == Some(Element(p.0)));
    let rk = d0.root_key.0;
    assert(d0.arena.live(rk));
    assert(rk != nk) by {
        if rk == nk {
            assert(d0.arena.parent_of(rk) is None);
        }
    }
    if rk != p.0 {
        assert(d2.arena.live(rk) == d0.arena.live(rk));
    }
    assert(d2.arena.is_element(rk));
    assert(d2.arena.parent_of(rk) is None);
    assert forall|q: DocKey, i2: int|
        #![trigger d2.arena.children_of(q)[i2]]
        d2.arena.is_element(q) && 0 <= i2 < d2.arena.children_of(q).len() implies {
        let c = d2.arena.children_of(q)[i2];
        &&& d2.handle_ok(c)
        &&& !(c is DocumentType)
        &&& d2.arena.parent_of(c.as_key()) == Some(Element(q))
    } by {
        let c = d2.arena.children_of(q)[i2];
        assert(q != nk);
        if q != p.0 {
            assert(d2.arena.live(q) == d0.arena.live(q));
        }
        assert(d0.arena.is_element(q));
        if q == p.0 {
            let j = if i2 < i {
                i2
            } else {
                i2 + 1
            };
            assert(c == kids0[j]);
            assert(d0.handle_ok(c));
            assert(c.spec_as_key() != nk) by {
                if c.spec_as_key() == nk {
                    assert(c == n);
                    assert(kids0[j] == kids0[i]);
                    assert(j != i);
                }
            }
        } else {
            assert(d2.arena.children_of(q) == d0.arena.children_of(q));
            assert(d0.arena.children_of(q)[i2] == c);
            assert(d0.handle_ok(c));
            assert(c.spec_as_key() != nk) by {
                if c.spec_as_key() == nk {
                    assert(c == n);
                    assert(d0.arena.parent_of(nk) == Some(Element(q)));
                }
            }
        }
        assert(d2.arena.live(c.spec_as_key()) == d0.arena.live(c.spec_as_key()));
        assert(d2.arena.parent_of(c.spec_as_key()) == d0.arena.parent_of(c.spec_as_key()));
    }
    assert forall|q: DocKey, i2: int, j2: int|
        #![trigger d2.arena.children_of(q)[i2], d2.arena.children_of(q)[j2]]
        d2.arena.is_element(q) && 0 <= i2 < j2 < d2.arena.children_of(q).len() implies d2.arena.children_of(
        q,
    )[i2] != d2.arena.children_of(q)[j2] by {
        if q == p.0 {
            let a = if i2 < i {
                i2
            } else {
                i2 + 1
            };
            let b = if j2 < i {
                j2
            } else {
                j2 + 1
            };
            assert(d2.arena.children_of(q)[i2] == kids0[a]);
            assert(d2.arena.children_of(q)[j2] == kids0[b]);
        } else {
            assert(q != nk);
            assert(d2.arena.live(q) == d0.arena.live(q));
            assert(d0.arena.is_element(q));
            assert(d2.arena.children_of(q) == d0.arena.children_of(q));
        }
    }
    assert forall|h: DocKey|
        #![trigger d2.arena.parent_of(h)]
        d2.arena.live(h) && d2.arena.parent_of(h) is Some implies {
        let pe = d2.arena.parent_of(h).unwrap();
        &&& d2.arena.bounded(pe.0)
        &&& pe.0 != h
        &&& d2.arena.live(pe.0) ==> (d2.arena.is_element(pe.0) && d2.arena.children_of(
            pe.0,
        ).contains(d2.handle_for(h)))
    } by {
        assert(h != nk);
        if h != p.0 {
            assert(d2.arena.live(h) == d0.arena.live(h));
        }
        assert(d0.arena.live(h));
        assert(d0.arena.parent_of(h) == d2.arena.parent_of(h));
        let pe = d2.arena.parent_of(h).unwrap();
        if d2.arena.live(pe.0) {
            assert(pe.0 != nk);
            if pe.0 != p.0 {
                assert(d2.arena.live(pe.0) == d0.arena.live(pe.0));
            }
            assert(d0.arena.live(pe.0));
            assert(d0.arena.children_of(pe.0).contains(d0.handle_for(h)));
            assert(d0.handle_for(h) == d2.handle_for(h));
            if pe.0 == p.0 {
                let j = choose|j: int| 0 <= j < kids0.len() && kids0[j] == d0.handle_for(h);
                assert(j != i) by {
                    if j == i {
                        assert(d0.handle_for(h) == n);
                        assert(n.spec_as_key() == h);
                    }
                }
                lemma_remove_keeps(kids0, i, j);
            } else {
                assert(d2.arena.children_of(pe.0) == d0.arena.children_of(pe.0));
            }
        }
    }
    assert forall|i2: int|
        #![trigger (d2.before@ + d2.after@)[i2]]
        0 <= i2 < (d2.before@ + d2.after@).len() implies {
        let m = (d2.before@ + d2.after@)[i2];
        &&& d2.handle_ok(m)
        &&& !(m is Element)
        &&& d2.arena.parent_of(m.as_key()) is None
    } by {
        let all0 = d0.before@ + d0.after@;
        assert((d2.before@ + d2.after@) =~= all0);
        let m = (d2.before@ + d2.after@)[i2];
        assert(m == all0[i2]);
        assert(d0.handle_ok(m));
        assert(m.spec_as_key() != nk) by {
            if m.spec_as_key() == nk {
                assert(d0.arena.parent_of(m.spec_as_key()) is None);
            }
        }
        if m.spec_as_key() != p.0 {
            assert(d2.arena.live(m.spec_as_key()) == d0.arena.live(m.spec_as_key()));
        }
    }
    assert((d2.before@ + d2.after@) =~= (d0.before@ + d0.after@));
    assert forall|h: DocKey| #[trigger] d2.arena.live(h) implies {
        &&& (d2.arena.attrs_of(h).len() > 0 ==> d2.arena.is_element(h))
        &&& attrs_wf(d2.arena.attrs_of(h))
        &&& (d2.arena.is_element(h) ==> d2.arena.name_of(h).wf())
    } by {
        assert(h != nk);
        if h != p.0 {
            assert(d2.arena.live(h) == d0.arena.live(h));
        }
        assert(d0.arena.live(h));
    }
}

/// In a duplicate-free list the removed value is gone entirely.
pub(crate) proof fn lemma_remove_unique_gone(s: Seq<Node>, i: int)
    requires
        0 <= i < s.len(),
        forall|a: int, b: int| #![trigger s[a], s[b]] 0 <= a < b < s.len() ==> s[a] != s[b],
    ensures
        !s.remove(i).contains(s[i]),
{
    if s.remove(i).contains(s[i]) {
        let j = choose|j: int| 0 <= j < s.remove(i).len() && s.remove(i)[j] == s[i];
        if j < i {
            assert(s[j] == s[i]);
        } else {
            assert(s[j + 1] == s[i]);
        }
    }
}

impl Document {
    /// Re-parents an existing element subtree under `parent`: detaches it
    /// from its current parent, if any, then appends it. Rejected for a stale
    /// handle, for the root, and for the element itself as parent.
    pub(crate) fn do_append_element(&mut self, parent: Element, e: Element) -> (r: Result<
        (),
        DocError,
    >)
        requires
            old(self).wf(),
        ensures
            r is Ok <==> (old(self).live_element(parent) && old(self).live_element(e) && e.0 != old(
                self,
            ).spec_root().0 && e.0 != parent.0),
            r matches Err(_) ==> *final(self) == *old(self),
            r is Ok ==> {
                &&& final(self).wf()
                &&& final(self).parent_of(e.0) == Some(parent)
                &&& final(self).is_element_key(parent.0)
                &&& final(self).is_element_key(e.0)
                &&& final(self).live(e.0)
                &&& final(self).value_of(e.0) == old(self).value_of(e.0)
                &&& final(self).attrs_of(e.0) == old(self).attrs_of(e.0)
                &&& final(self).children_of(parent.0) == (if old(self).parent_of(e.0) == Some(
                    parent,
                ) {
                    old(self).children_of(parent.0).remove_value(Node::Element(e))
                } else {
                    old(self).children_of(parent.0)
                }).push(Node::Element(e))
                &&& match old(self).parent_of(e.0) {
                    Some(op) => op != parent && old(self).is_element_key(op.0) ==> {
                        &&& final(self).children_of(op.0) == old(self).children_of(
                            op.0,
                        ).remove_value(Node::Element(e))
                        &&& !final(self).children_of(op.0).contains(Node::Element(e))
                    },
                    None => true,
                }
                &&& forall|h: DocKey|
                    h != e.0 && h != parent.0 && (match old(self).parent_of(e.0) {
                        Some(op) => h != op.0,
                        None => true,
                    }) ==> #[trigger] Document::unchanged_at(*old(self), *final(self), h)
                &&& Document::same_shell(*old(self), *final(self))
            },
    {
        broadcast use group_doc_bridge;

        if !self.check_element(parent) || !self.check_element(e) {
            return Err(DocError::StaleOrMissingHandle);
        }
        let root = self.root_key;
        if e == root || e == parent {
            return Err(DocError::StaleOrMissingHandle);
        }
        let ghost d0 = *self;
        let node = Node::Element(e);
        proof {
            assert(d0.handle_ok(node));
            let popt = d0.arena.parent_of(e.0);
            if popt is Some && d0.arena.is_element(popt.unwrap().0) {
                let op = popt.unwrap();
                let kids = d0.arena.children_of(op.0);
                assert(kids.contains(d0.handle_for(e.0)));
                assert(d0.handle_for(e.0) == node);
            }
        }
        self.do_detach(node);
        let ghost d1 = *self;
        proof {
            assert(d1.arena.is_element(parent.0)) by {
                if (match d0.arena.parent_of(e.0) {
                    Some(op) => parent.0 != op.0,
                    None => true,
                }) && parent.0 != e.0 {
                    assert(Document::unchanged_at(d0, d1, parent.0));
                }
            }
            assert(d1.arena.is_element(e.0));
            let popt = d0.arena.parent_of(e.0);
            if popt is Some && d0.arena.is_element(popt.unwrap().0) {
                let op = popt.unwrap();
                d0.arena.children_of(op.0).index_of_first_ensures(node);
                lemma_remove_unique_gone(
                    d0.arena.children_of(op.0),
                    d0.arena.children_of(op.0).index_of_first(node).unwrap(),
                );
            }
        }
        let kids = match self.arena.children(parent.0) {
            Some(c) => clone_nodes(c),
            None => {
                proof {
                    assert(false);
                }
                Vec::new()
            },
        };
        self.arena.set_parent(e.0, Some(parent));
        proof {
            assert(self.arena.is_element(parent.0)) by {
                assert(self.arena.live(parent.0) == d1.arena.live(parent.0));
            }
        }
        let ghost a2 = self.arena;
        let mut kids2 = kids;
        kids2.push(node);
        self.arena.set_children(parent.0, kids2);
        proof {
            let d2 = *self;
            assert(d2.arena.live(e.0) == a2.live(e.0));
            assert(d2.arena.parent_of(e.0) == Some(parent));
            assert(d2.arena.value_of(e.0) == d1.arena.value_of(e.0));
            assert(d2.arena.children_of(parent.0) =~= d1.arena.children_of(parent.0).push(node));
            assert(attach_shape(d1, d2, parent, e));
            lemma_attach_wf(d1, d2, parent, e);
            let popt = d0.arena.parent_of(e.0);
            if popt is Some {
                let op = popt.unwrap();
                if op.0 == parent.0 {
                    assert(d1.arena.children_of(parent.0) == d0.arena.children_of(
                        parent.0,
                    ).remove_value(node));
                } else {
                    assert(Document::unchanged_at(d0, d1, parent.0));
                    assert(d1.arena.children_of(parent.0) == d0.arena.children_of(parent.0));
                    if d0.arena.is_element(op.0) {
                        assert(d2.arena.live(op.0) == a2.live(op.0));
                        assert(a2.live(op.0) == d1.arena.live(op.0));
                        assert(d2.arena.value_of(op.0) == d1.arena.value_of(op.0));
                        assert(d2.arena.children_of(op.0) == d1.arena.children_of(op.0));
                    }
                }
            } else {
                assert(Document::unchanged_at(d0, d1, parent.0));
                assert(d1.arena.children_of(parent.0) == d0.arena.children_of(parent.0));
            }
            assert forall|h: DocKey|
                h != e.0 && h != parent.0 && (match d0.arena.parent_of(e.0) {
                    Some(op) => h != op.0,
                    None => true,
                }) implies Document::unchanged_at(d0, d2, h) by {
                assert(Document::unchanged_at(d0, d1, h));
                assert(d2.arena.live(h) == a2.live(h));
                assert(a2.live(h) == d1.arena.live(h));
                if d1.arena.live(h) {
                    assert(d2.arena.value_of(h) == d1.arena.value_of(h));
                    assert(d2.arena.parent_of(h) == d1.arena.parent_of(h));
                    assert(d2.arena.attrs_of(h) == d1.arena.attrs_of(h));
                }
            }
        }
        Ok(())
    }

    /// Removes `node` from `parent`'s children and frees it; does nothing
    /// when `node` is not currently a child of `parent`.
    pub(crate) fn do_remove_child(&mut self, parent: Element, node: Node) -> (r: Result<
        bool,
        DocError,
    >)
        requires
            old(self).wf(),
        ensures
            r is Ok <==> old(self).live_element(parent),
            r matches Err(_) ==> *final(self) == *old(self),
            r == Ok::<bool, DocError>(false) ==> !old(self).children_of(parent.0).contains(node)
                && *final(self) == *old(self),
            r == Ok::<bool, DocError>(true) ==> {
                &&& old(self).children_of(parent.0).contains(node)
                &&& final(self).wf()
                &&& final(self).children_of(parent.0) == old(self).children_of(
                    parent.0,
                ).remove_value(node)
                &&& !final(self).children_of(parent.0).contains(node)
                &&& !final(self).live(node.spec_as_key())
                &&& final(self).is_element_key(parent.0)
                &&& final(self).name_of(parent.0) == old(self).name_of(parent.0)
                &&& final(self).attrs_of(parent.0) == old(self).attrs_of(parent.0)
                &&& final(self).parent_of(parent.0) == old(self).parent_of(parent.0)
                &&& forall|h: DocKey|
                    h != node.spec_as_key() && h != parent.0 ==> #[trigger] Document::unchanged_at(
                        *old(self),
                        *final(self),
                        h,
                    )
                &&& Document::same_shell(*old(self), *final(self))
            },
    {
        broadcast use group_doc_bridge;

        if !self.check_element(parent) {
            return Err(DocError::StaleOrMissingHandle);
        }
        let ghost d0 = *self;
        match self.find_child(parent, node) {
            None => Ok(false),
            Some(i) => {
                let kids = match self.arena.children(parent.0) {
                    Some(c) => clone_nodes(c),
                    None => {
                        proof {
                            assert(false);
                        }
                        Vec::new()
                    },
                };
                let mut kids2 = kids;
                kids2.remove(i);
                let ghost a1 = self.arena;
                self.arena.set_children(parent.0, kids2);
                proof {
                    assert(self.arena.live(node.as_key()) == a1.live(node.as_key())) by {
                        assert(node.spec_as_key() != parent.0) by {
                            assert(d0.arena.parent_of(node.spec_as_key()) == Some(
                                Element(parent.0),
                            ));
                        }
                    }
                }
                let ghost a2 = self.arena;
                self.arena.remove(node.as_key());
                proof {
                    let d2 = *self;
                    assert(d2.arena.live(parent.0) == a2.live(parent.0)) by {
                        assert(node.spec_as_key() != parent.0);
                    }
                    assert(d2.arena.is_element(parent.0));
                    assert(d2.arena.children_of(parent.0) == a2.children_of(parent.0));
                    let kids0 = d0.arena.children_of(parent.0);
                    assert(kids0.contains(node)) by {
                        assert(kids0[i as int] == node);
                    }
                    kids0.index_of_first_ensures(node);
                    let fi = kids0.index_of_first(node).unwrap();
                    assert(fi == i) by {
                        if fi < i {
                            assert(kids0[fi] == node);
                        } else if fi > i {
                            assert(kids0[i as int] != node);
                        }
                    }
                    assert(d2.arena.children_of(parent.0) =~= kids0.remove_value(node));
                    lemma_remove_free_wf(d0, d2, parent, node, i as int);
                    lemma_remove_unique_gone(kids0, i as int);
                }
                Ok(true)
            },
        }
    }

    /// Creates an element from `el` and inserts it among the children of
    /// `sibling`'s parent, immediately after `sibling`. Rejected when
    /// `sibling` is stale or has no live parent element.
    #[verifier::rlimit(100)]
    #[verifier::spinoff_prover]
    pub(crate) fn do_append_new_element_after(&mut self, sibling: Element, el: NewElement) -> (r:
        Result<Element, DocError>)
        requires
            old(self).wf(),
            el.wf(),
        ensures
            r is Ok <==> (old(self).live_element(sibling) && (old(self).parent_of(
                sibling.0,
            ) matches Some(p) && old(self).is_element_key(p.0))),
            r matches Err(_) ==> *final(self) == *old(self),
            r matches Ok(ne) ==> {
                &&& final(self).wf()
                &&& !old(self).live(ne.0)
                &&& final(self).is_element_key(ne.0)
                &&& final(self).name_of(ne.0) == el.name
                &&& final(self).attrs_of(ne.0) == crate::attrs::dedup_attrs(el.attrs@)
                &&& final(self).children_of(ne.0) == Seq::<Node>::empty()
                &&& final(self).is_element_key(sibling.0)
                &&& old(self).parent_of(sibling.0) matches Some(p) && final(self).is_element_key(
                    p.0,
                ) && final(self).parent_of(ne.0) == Some(p) && ({
                    let kids = old(self).children_of(p.0);
                    let pos = kids.index_of_first(Node::Element(sibling)).unwrap();
                    &&& kids.index_of_first(Node::Element(sibling)) is Some
                    &&& final(self).children_of(p.0) == kids.insert(
                        pos + 1,
                        Node::Element(ne),
                    )
                }) && forall|h: DocKey|
                    h != ne.0 && h != p.0 ==> #[trigger] Document::unchanged_at(*old(self), *final(self), h)
                &&& Document::same_shell(*old(self), *final(self))
            },
    {
        broadcast use group_doc_bridge;

        if !self.check_element(sibling) {
            return Err(DocError::StaleOrMissingHandle);
        }
        let p = match self.arena.parent(sibling.0) {
            Some(p) => p,
            None => {
                return Err(DocError::StaleOrMissingHandle);
            },
        };
        if !self.check_element(p) {
            return Err(DocError::StaleOrMissingHandle);
        }
        let ghost d0 = *self;
        let snode = Node::Element(sibling);
        proof {
            assert(d0.handle_ok(snode));
            assert(d0.arena.children_of(p.0).contains(d0.handle_for(sibling.0)));
            assert(d0.handle_for(sibling.0) == snode);
        }
        let pos = match self.find_child(p, snode) {
            Some(i) => i,
            None => {
                proof {
                    assert(false);
                }
                0
            },
        };
        let ghost kids0 = d0.arena.children_of(p.0);
        proof {
            kids0.index_of_first_ensures(snode);
            let fi = kids0.index_of_first(snode).unwrap();
            assert(fi == pos) by {
                if fi < pos {
                    assert(kids0[fi] == snode);
                } else if fi > pos {
                    assert(kids0[pos as int] != snode);
                }
            }
        }
        let attrs = dedup_attrs_exec(el.attrs);
        proof {
            crate::attrs::lemma_dedup_attrs_wf(el.attrs@);
        }
        let value = NodeValue::Element(ElementValue { name: el.name, children: Vec::new() });
        let k = match self.insert_child_node(p, value, attrs) {
            Ok(k) => k,
            Err(_) => {
                proof {
                    assert(false);
                }
                return Err(DocError::StaleOrMissingHandle);
            },
        };
        let ghost d1 = *self;
        let node = Node::Element(Element(k));
        proof {
            assert(d1.handle_for(k) == node);
            assert(d1.arena.children_of(p.0) == kids0.push(node));
        }
        let kids = match self.arena.children(p.0) {
            Some(c) => clone_nodes(c),
            None => {
                proof {
                    assert(false);
                }
                Vec::new()
            },
        };
        let mut kids2 = kids;
        let last = kids2.remove(kids2.len() - 1);
        kids2.insert(pos + 1, last);
        self.arena.set_children(p.0, kids2);
        proof {
            let d2 = *self;
            let s1 = kids0.push(node);
            let s2 = kids0.insert(pos + 1, node);
            assert(kids2@ =~= s2) by {
                assert(s1.remove(kids0.len() as int) =~= kids0);
            }
            assert(d2.arena.children_of(p.0) == s2);
            lemma_move_last_perm(kids0, node, pos + 1, d1, p);
            assert(d2.arena.live(p.0) == d1.arena.live(p.0));
            assert(reorder_shape(d1, d2, p));
            lemma_reorder_children_wf(d1, d2, p);
            assert(d2.arena.live(k) == d1.arena.live(k)) by {
                assert(k != p.0);
            }
            assert(d2.arena.value_of(k) == d1.arena.value_of(k));
            assert(d2.arena.attrs_of(k) == d1.arena.attrs_of(k));
            assert(d2.arena.parent_of(k) == d1.arena.parent_of(k));
            assert forall|h: DocKey| h != k && h != p.0 implies Document::unchanged_at(
                d0,
                d2,
                h,
            ) by {
                assert(Document::unchanged_at(d0, d1, h));
                assert(d2.arena.live(h) == d1.arena.live(h));
                if d1.arena.live(h) {
                    assert(d2.arena.value_of(h) == d1.arena.value_of(h));
                    assert(d2.arena.parent_of(h) == d1.arena.parent_of(h));
                    assert(d2.arena.attrs_of(h) == d1.arena.attrs_of(h));
                }
            }
            assert(d2.arena.is_element(p.0));
            assert(sibling.0 != k) by {
                assert(d0.live(sibling.0));
            }
            assert(sibling.0 != p.0) by {
                assert(d0.arena.parent_of(sibling.0) == Some(p));
            }
            assert(Document::unchanged_at(d0, d2, sibling.0));
            assert(d2.arena.is_element(sibling.0));
        }
        Ok(Element(k))
    }

    /// Replaces the attribute `name` on a live element, or appends it; the
    /// table keeps its order. Rejected for a stale handle or an invalid name.
    pub(crate) fn do_set_attribute(&mut self, e: Element, name: &str, value: &str) -> (r: Result<
        (),
        DocError,
    >)
        requires
            old(self).wf(),
        ensures
            r is Ok <==> (old(self).live_element(e) && crate::qname::spec_valid_qname(name@)),
            r matches Err(err) ==> *final(self) == *old(self) && (err == DocError::InvalidQName
                <==> !crate::qname::spec_valid_qname(name@)),
            r is Ok ==> {
                &&& final(self).wf()
                &&& exists|q: QName, v: String|
                    q.wf() && q@ == name@ && v@ == value@ && final(self).attrs_of(e.0)
                        == #[trigger] crate::attrs::attr_upsert(old(self).attrs_of(e.0), q, v)
                &&& final(self).is_element_key(e.0)
                &&& final(self).value_of(e.0) == old(self).value_of(e.0)
                &&& final(self).parent_of(e.0) == old(self).parent_of(e.0)
                &&& forall|h: DocKey|
                    h != e.0 ==> #[trigger] Document::unchanged_at(*old(self), *final(self), h)
                &&& Document::same_shell(*old(self), *final(self))
            },
    {
        broadcast use group_doc_bridge;

        let q = match QName::new(name) {
            Ok(q) => q,
            Err(_) => {
                return Err(DocError::InvalidQName);
            },
        };
        if !self.check_element(e) {
            return Err(DocError::StaleOrMissingHandle);
        }
        let ghost d0 = *self;
        let mut attrs = match self.arena.attrs(e.0) {
            Some(a) => clone_attrs(a),
            None => {
                proof {
                    assert(false);
                }
                Vec::new()
            },
        };
        let v = value.to_owned();
        let ghost qg = q;
        let ghost vg = v;
        crate::attrs::attr_upsert_exec(&mut attrs, q, v);
        proof {
            crate::attrs::lemma_attr_upsert_wf(d0.arena.attrs_of(e.0), qg, vg);
            assert(attrs@ == crate::attrs::attr_upsert(d0.arena.attrs_of(e.0), qg, vg));
        }
        self.arena.set_attrs(e.0, attrs);
        proof {
            let d2 = *self;
            assert(vg@ == value@);
            assert(attrs_wf(d2.arena.attrs_of(e.0))) by {
                assert(d0.arena.live(e.0));
                crate::attrs::lemma_attr_upsert_wf(d0.arena.attrs_of(e.0), qg, vg);
            }
            lemma_set_attrs_only_wf(d0, d2, e);
            assert(qg.wf() && qg@ == name@ && vg@ == value@ && d2.arena.attrs_of(e.0)
                == crate::attrs::attr_upsert(d0.arena.attrs_of(e.0), qg, vg));
            assert(d0 == *old(self));
            assert(d2.attrs_of(e.0) == d2.arena.attrs_of(e.0));
            assert(d0.attrs_of(e.0) == d0.arena.attrs_of(e.0));
            assert(d2.attrs_of(e.0) == crate::attrs::attr_upsert(d0.attrs_of(e.0), qg, vg));
            assert forall|h: DocKey| h != e.0 implies Document::unchanged_at(d0, d2, h) by {
                assert(d2.arena.live(h) == d0.arena.live(h));
            }
        }
        Ok(())
    }
}

impl Document {
    /// Creates an element node from `el` under `parent`.
    pub(crate) fn create_child_element(&mut self, parent: Element, el: NewElement) -> (r: Result<
        Element,
        DocError,
    >)
        requires
            old(self).wf(),
            el.wf(),
        ensures
            r is Ok <==> old(self).live_element(parent),
            r matches Err(_) ==> *final(self) == *old(self),
            r matches Ok(e) ==> {
                &&& final(self).wf()
                &&& !old(self).live(e.0)
                &&& final(self).is_element_key(e.0)
                &&& final(self).name_of(e.0) == el.name
                &&& final(self).attrs_of(e.0) == crate::attrs::dedup_attrs(el.attrs@)
                &&& final(self).children_of(e.0) == Seq::<Node>::empty()
                &&& final(self).parent_of(e.0) == Some(parent)
                &&& final(self).children_of(parent.0) == old(self).children_of(parent.0).push(
                    Node::Element(e),
                )
                &&& final(self).name_of(parent.0) == old(self).name_of(parent.0)
                &&& final(self).attrs_of(parent.0) == old(self).attrs_of(parent.0)
                &&& final(self).is_element_key(parent.0)
                &&& forall|h: DocKey|
                    h != e.0 && h != parent.0 ==> #[trigger] Document::unchanged_at(
                        *old(self),
                        *final(self),
                        h,
                    )
                &&& Document::same_shell(*old(self), *final(self))
            },
    {
        broadcast use group_doc_bridge;

        let attrs = dedup_attrs_exec(el.attrs);
        proof {
            crate::attrs::lemma_dedup_attrs_wf(el.attrs@);
        }
        let value = NodeValue::Element(ElementValue { name: el.name, children: Vec::new() });
        match self.insert_child_node(parent, value, attrs) {
            Ok(k) => Ok(Element(k)),
            Err(e) => Err(e),
        }
    }

    /// Creates a text node under `parent`.
    pub(crate) fn create_child_leaf_text(&mut self, parent: Element, text: &str) -> (r: Result<
        Text,
        DocError,
    >)
        requires
            old(self).wf(),
        ensures
            r is Ok <==> old(self).live_element(parent),
            r matches Err(_) ==> *final(self) == *old(self),
            r matches Ok(t) ==> {
                &&& final(self).wf()
                &&& !old(self).live(t.0)
                &&& final(self).value_of(t.0) matches NodeValue::Text(s) && s@ == text@
                &&& final(self).parent_of(t.0) == Some(parent)
                &&& final(self).attrs_of(t.0) == Seq::<(QName, String)>::empty()
                &&& final(self).children_of(parent.0) == old(self).children_of(parent.0).push(
                    Node::Text(t),
                )
                &&& final(self).name_of(parent.0) == old(self).name_of(parent.0)
                &&& final(self).attrs_of(parent.0) == old(self).attrs_of(parent.0)
                &&& final(self).is_element_key(parent.0)
                &&& forall|h: DocKey|
                    h != t.0 && h != parent.0 ==> #[trigger] Document::unchanged_at(
                        *old(self),
                        *final(self),
                        h,
                    )
                &&& Document::same_shell(*old(self), *final(self))
            },
    {
        broadcast use group_doc_bridge;

        let value = NodeValue::Text(text.to_owned());
        match self.insert_child_node(parent, value, Vec::new()) {
            Ok(k) => Ok(Text(k)),
            Err(e) => Err(e),
        }
    }

    /// Creates a CDATA node under `parent`.
    pub(crate) fn create_child_leaf_cdata(&mut self, parent: Element, text: &str) -> (r: Result<
        CDataSection,
        DocError,
    >)
        requires
            old(self).wf(),
        ensures
            r is Ok <==> old(self).live_element(parent),
            r matches Err(_) ==> *final(self) == *old(self),
            r matches Ok(t) ==> {
                &&& final(self).wf()
                &&& !old(self).live(t.0)
                &&& final(self).value_of(t.0) matches NodeValue::CData(s) && s@ == text@
                &&& final(self).parent_of(t.0) == Some(parent)
                &&& final(self).children_of(parent.0) == old(self).children_of(parent.0).push(
                    Node::CDataSection(t),
                )
                &&& final(self).is_element_key(parent.0)
                &&& forall|h: DocKey|
                    h != t.0 && h != parent.0 ==> #[trigger] Document::unchanged_at(
                        *old(self),
                        *final(self),
                        h,
                    )
                &&& Document::same_shell(*old(self), *final(self))
            },
    {
        broadcast use group_doc_bridge;

        let value = NodeValue::CData(text.to_owned());
        match self.insert_child_node(parent, value, Vec::new()) {
            Ok(k) => Ok(CDataSection(k)),
            Err(e) => Err(e),
        }
    }

    /// Creates a comment node under `parent`.
    pub(crate) fn create_child_leaf_comment(&mut self, parent: Element, text: &str) -> (r: Result<
        Comment,
        DocError,
    >)
        requires
            old(self).wf(),
        ensures
            r is Ok <==> old(self).live_element(parent),
            r matches Err(_) ==> *final(self) == *old(self),
            r matches Ok(t) ==> {
                &&& final(self).wf()
                &&& !old(self).live(t.0)
                &&& final(self).value_of(t.0) matches NodeValue::Comment(s) && s@ == text@
                &&& final(self).parent_of(t.0) == Some(parent)
                &&& final(self).children_of(parent.0) == old(self).children_of(parent.0).push(
                    Node::Comment(t),
                )
                &&& final(self).is_element_key(parent.0)
                &&& forall|h: DocKey|
                    h != t.0 && h != parent.0 ==> #[trigger] Document::unchanged_at(
                        *old(self),
                        *final(self),
                        h,
                    )
                &&& Document::same_shell(*old(self), *final(self))
            },
    {
        broadcast use group_doc_bridge;

        let value = NodeValue::Comment(text.to_owned());
        match self.insert_child_node(parent, value, Vec::new()) {
            Ok(k) => Ok(Comment(k)),
            Err(e) => Err(e),
        }
    }

    /// Replaces all children of `e` with a single text node, freeing the
    /// former children.
    pub(crate) fn do_set_text(&mut self, e: Element, text: &str) -> (r: Result<Text, DocError>)
        requires
            old(self).wf(),
        ensures
            r is Ok <==> old(self).live_element(e),
            r matches Err(_) ==> *final(self) == *old(self),
            r matches Ok(t) ==> {
                &&& final(self).wf()
                &&& final(self).is_element_key(e.0)
                &&& final(self).value_of(t.0) matches NodeValue::Text(s) && s@ == text@
                &&& final(self).children_of(e.0) == seq![Node::Text(t)]
                &&& final(self).name_of(e.0) == old(self).name_of(e.0)
                &&& final(self).attrs_of(e.0) == old(self).attrs_of(e.0)
                &&& Document::same_shell(*old(self), *final(self))
            },
    {
        broadcast use group_doc_bridge;

        if !self.check_element(e) {
            return Err(DocError::StaleOrMissingHandle);
        }
        let ghost d0 = *self;
        let ghost kids0 = d0.children_of(e.0);
        let mut j = match self.arena.children(e.0) {
            Some(c) => c.len(),
            None => {
                proof {
                    assert(false);
                }
                0
            },
        };
        proof {
            assert(self.children_of(e.0) =~= kids0.take(j as int));
        }
        while j > 0
            invariant
                self.wf(),
                self.is_element_key(e.0),
                j <= kids0.len(),
                self.children_of(e.0) == kids0.take(j as int),
                self.name_of(e.0) == d0.name_of(e.0),
                self.attrs_of(e.0) == d0.attrs_of(e.0),
                Document::same_shell(d0, *self),
            decreases j,
        {
            let kids = match self.arena.children(e.0) {
                Some(c) => c,
                None => {
                    proof {
                        assert(false);
                    }
                    return Err(DocError::StaleOrMissingHandle);
                },
            };
            let node = kids[kids.len() - 1];
            let ghost pre = *self;
            proof {
                assert(pre.children_of(e.0)[j - 1] == node);
                assert(pre.children_of(e.0).contains(node)) by {
                    assert(pre.children_of(e.0)[j - 1] == node);
                }
            }
            let removed = match self.do_remove_child(e, node) {
                Ok(b) => b,
                Err(_) => {
                    proof {
                        assert(false);
                    }
                    return Err(DocError::StaleOrMissingHandle);
                },
            };
            proof {
                if !removed {
                    assert(!pre.children_of(e.0).contains(node));
                    assert(false);
                }
                let ks = pre.children_of(e.0);
                ks.index_of_first_ensures(node);
                let fi = ks.index_of_first(node).unwrap();
                assert(fi == j - 1) by {
                    if fi < j - 1 {
                        assert(ks[fi] == ks[j - 1]);
                        assert(pre.inner_wf());
                        assert(pre.arena.children_of(e.0)[fi] == pre.arena.children_of(e.0)[j - 1]);
                        assert(false);
                    }
                }
                assert(self.children_of(e.0) =~= kids0.take(j - 1)) by {
                    assert(self.children_of(e.0) == ks.remove(j - 1));
                    assert(ks.remove(j - 1) =~= ks.drop_last());
                    assert(ks.drop_last() =~= kids0.take(j - 1));
                }
            }
            j -= 1;
        }
        proof {
            assert(self.children_of(e.0) =~= Seq::<Node>::empty());
        }
        let ghost d1 = *self;
        match self.create_child_leaf_text(e, text) {
            Ok(t) => {
                proof {
                    assert(self.children_of(e.0) =~= seq![Node::Text(t)]);
                }
                Ok(t)
            },
            Err(err) => {
                proof {
                    assert(false);
                }
                Err(err)
            },
        }
    }
}

impl Document {
    /// Creates a free-standing, parentless node and appends its handle to
    /// the list before or after the root.
    pub(crate) fn push_floating(&mut self, value: NodeValue, to_after: bool) -> (r: Node)
        requires
            old(self).wf(),
            !(value is Element),
        ensures
            final(self).wf(),
            final(self).value_of(r.spec_as_key()) == value,
            final(self).live(r.spec_as_key()),
            !old(self).live(r.spec_as_key()),
            forall|h: DocKey| #[trigger] old(self).live(h) ==> h != r.spec_as_key(),
            match value {
                NodeValue::Text(_) => r is Text,
                NodeValue::CData(_) => r is CDataSection,
                NodeValue::Comment(_) => r is Comment,
                NodeValue::DocumentType(_) => r is DocumentType,
                NodeValue::Element(_) => true,
            },
            to_after ==> {
                &&& final(self).spec_after() == old(self).spec_after().push(r)
                &&& final(self).spec_before() == old(self).spec_before()
            },
            !to_after ==> {
                &&& final(self).spec_before() == old(self).spec_before().push(r)
                &&& final(self).spec_after() == old(self).spec_after()
            },
            final(self).spec_root() == old(self).spec_root(),
            final(self).spec_decl() == old(self).spec_decl(),
            forall|h: DocKey|
                h != r.spec_as_key() ==> #[trigger] Document::unchanged_at(
                    *old(self),
                    *final(self),
                    h,
                ),
    {
        broadcast use group_doc_bridge;

        let ghost d0 = *self;
        let k = self.arena.insert(value);
        let node = match self.arena.value(k) {
            Some(NodeValue::Text(_)) => Node::Text(Text(k)),
            Some(NodeValue::CData(_)) => Node::CDataSection(CDataSection(k)),
            Some(NodeValue::Comment(_)) => Node::Comment(Comment(k)),
            Some(NodeValue::DocumentType(_)) => Node::DocumentType(DocumentType(k)),
            _ => {
                proof {
                    assert(false);
                }
                Node::Text(Text(k))
            },
        };
        if to_after {
            self.after.push(node);
        } else {
            self.before.push(node);
        }
        proof {
            let d2 = *self;
            lemma_push_floating_wf(d0, d2, k, node, to_after);
            assert forall|h: DocKey| h != k implies Document::unchanged_at(d0, d2, h) by {
                assert(d2.arena.live(h) == d0.arena.live(h));
            }
            assert forall|h: DocKey| #[trigger] d0.live(h) implies h != k by {
                assert(d0.arena.bounded(h));
            }
        }
        node
    }
}

/// Appending a fresh, parentless, kind-correct non-element node to one of
/// the surrounding lists keeps the invariant.
#[verifier::rlimit(100)]
#[verifier::spinoff_prover]
proof fn lemma_push_floating_wf(d0: Document, d2: Document, k: DocKey, node: Node, to_after: bool)
    requires
        d0.inner_wf(),
        !d0.arena.live(k),
        forall|h: DocKey| #[trigger] d0.arena.bounded(h) ==> h != k,
        d2.arena.wf(),
        d2.arena.live(k),
        d2.arena.bounded(k),
        forall|h: DocKey| #[trigger] d0.arena.bounded(h) ==> d2.arena.bounded(h),
        node.spec_as_key() == k,
        d2.handle_ok(node),
        !(node is Element),
        !(node is ProcessingInstruction),
        d2.arena.parent_of(k) is None,
        d2.arena.attrs_of(k) == Seq::<(QName, String)>::empty(),
        forall|h: DocKey|
            h != k ==> (#[trigger] d2.arena.live(h) == d0.arena.live(h) && (d0.arena.live(h)
                ==> d2.arena.value_of(h) == d0.arena.value_of(h) && d2.arena.parent_of(h)
                == d0.arena.parent_of(h) && d2.arena.attrs_of(h) == d0.arena.attrs_of(h))),
        d2.root_key == d0.root_key,
        to_after ==> d2.before@ == d0.before@ && d2.after@ == d0.after@.push(node),
        !to_after ==> d2.before@ == d0.before@.push(node) && d2.after@ == d0.after@,
    ensures
        d2.inner_wf(),
{
    broadcast use crate::arena::lemma_arena_name_of, crate::arena::lemma_arena_children_of, crate::arena::Arena::lemma_live_bounded;

    let rk = d0.root_key.0;
    assert(d0.arena.live(rk));
    assert(rk != k);
    assert(d2.arena.live(rk) == d0.arena.live(rk));
    assert(d2.arena.value_of(rk) == d0.arena.value_of(rk));
    assert(d2.arena.parent_of(rk) == d0.arena.parent_of(rk));
    assert(d2.arena.is_element(rk));
    assert(d2.arena.parent_of(rk) is None);
    assert forall|p: DocKey, i: int|
        #![trigger d2.arena.children_of(p)[i]]
        d2.arena.is_element(p) && 0 <= i < d2.arena.children_of(p).len() implies {
        let c = d2.arena.children_of(p)[i];
        &&& d2.handle_ok(c)
        &&& !(c is DocumentType)
        &&& d2.arena.parent_of(c.as_key()) == Some(Element(p))
    } by {
        assert(p != k) by {
            if p == k {
                assert(d2.arena.value_of(k) is Element);
                assert(d2.handle_ok(node));
            }
        }
        assert(d2.arena.live(p) == d0.arena.live(p));
        assert(d0.arena.is_element(p));
        assert(d2.arena.children_of(p) == d0.arena.children_of(p));
        let c = d2.arena.children_of(p)[i];
        assert(d0.arena.children_of(p)[i] == c);
        assert(d0.handle_ok(c));
        assert(c.spec_as_key() != k);
        assert(d2.arena.live(c.spec_as_key()) == d0.arena.live(c.spec_as_key()));
        assert(d2.arena.value_of(c.spec_as_key()) == d0.arena.value_of(c.spec_as_key()));
        assert(d2.arena.parent_of(c.spec_as_key()) == d0.arena.parent_of(c.spec_as_key()));
    }
    assert forall|p: DocKey, i: int, j: int|
        #![trigger d2.arena.children_of(p)[i], d2.arena.children_of(p)[j]]
        d2.arena.is_element(p) && 0 <= i < j < d2.arena.children_of(p).len() implies d2.arena.children_of(
        p,
    )[i] != d2.arena.children_of(p)[j] by {
        assert(p != k) by {
            if p == k {
                assert(d2.arena.value_of(k) is Element);
                assert(d2.handle_ok(node));
            }
        }
        assert(d2.arena.live(p) == d0.arena.live(p));
        assert(d0.arena.is_element(p));
        assert(d2.arena.children_of(p) == d0.arena.children_of(p));
    }
    assert forall|h: DocKey|
        #![trigger d2.arena.parent_of(h)]
        d2.arena.live(h) && d2.arena.parent_of(h) is Some implies {
        let pe = d2.arena.parent_of(h).unwrap();
        &&& d2.arena.bounded(pe.0)
        &&& pe.0 != h
        &&& d2.arena.live(pe.0) ==> (d2.arena.is_element(pe.0) && d2.arena.children_of(
            pe.0,
        ).contains(d2.handle_for(h)))
    } by {
        assert(h != k) by {
            if h == k {
                assert(d2.arena.parent_of(k) is None);
            }
        }
        assert(d2.arena.live(h) == d0.arena.live(h));
        assert(d0.arena.live(h));
        assert(d0.arena.parent_of(h) == d2.arena.parent_of(h));
        let pe = d2.arena.parent_of(h).unwrap();
        assert(pe.0 != k);
        if d2.arena.live(pe.0) {
            assert(d0.arena.live(pe.0));
            assert(d0.arena.children_of(pe.0).contains(d0.handle_for(h)));
            assert(d0.handle_for(h) == d2.handle_for(h));
            assert(d2.arena.children_of(pe.0) == d0.arena.children_of(pe.0));
        }
    }
    let all0 = d0.before@ + d0.after@;
    let all2 = d2.before@ + d2.after@;
    assert forall|i: int|
        #![trigger all2[i]]
        0 <= i < all2.len() implies {
        let m = all2[i];
        &&& d2.handle_ok(m)
        &&& !(m is Element)
        &&& d2.arena.parent_of(m.as_key()) is None
    } by {
        if to_after {
            assert(all2 =~= all0.push(node));
        } else {
            assert(all2 =~= all0.insert(d0.before@.len() as int, node));
        }
        let m = all2[i];
        if m == node {
        } else {
            assert(all0.contains(m)) by {
                if to_after {
                    if i < all0.len() {
                        assert(all0[i] == m);
                    }
                } else {
                    if i < d0.before@.len() {
                        assert(all0[i] == m);
                    } else {
                        assert(all0[i - 1] == m);
                    }
                }
            }
            let j = choose|j: int| 0 <= j < all0.len() && all0[j] == m;
            assert(d0.handle_ok(m));
            assert(m.spec_as_key() != k);
            assert(d2.arena.live(m.spec_as_key()) == d0.arena.live(m.spec_as_key()));
            assert(d2.arena.value_of(m.spec_as_key()) == d0.arena.value_of(m.spec_as_key()));
            assert(d2.arena.parent_of(m.spec_as_key()) == d0.arena.parent_of(m.spec_as_key()));
        }
    }
    assert forall|i: int, j: int|
        #![trigger all2[i], all2[j]]
        0 <= i < j < all2.len() implies all2[i] != all2[j] by {
        let map_i = if to_after {
            i
        } else if i < d0.before@.len() {
            i
        } else {
            i - 1
        };
        let map_j = if to_after {
            if j == all2.len() - 1 {
                -1
            } else {
                j
            }
        } else if j == d0.before@.len() {
            -1
        } else if j < d0.before@.len() {
            j
        } else {
            j - 1
        };
        let new_pos: int = if to_after {
            all2.len() - 1
        } else {
            d0.before@.len() as int
        };
        if i == new_pos {
            assert(all2[i] == node);
            if map_j >= 0 {
                assert(all2[j] == all0[map_j]);
                assert(d0.handle_ok(all0[map_j]));
                assert(all0[map_j].spec_as_key() != k);
            }
        } else if j == new_pos {
            assert(all2[j] == node);
            assert(all2[i] == all0[map_i]);
            assert(d0.handle_ok(all0[map_i]));
            assert(all0[map_i].spec_as_key() != k);
        } else {
            assert(all2[i] == all0[map_i]);
            assert(all2[j] == all0[if to_after {
                j
            } else if j < d0.before@.len() {
                j
            } else {
                j - 1
            }]);
        }
    }
    assert forall|h: DocKey| #[trigger] d2.arena.live(h) implies {
        &&& (d2.arena.attrs_of(h).len() > 0 ==> d2.arena.is_element(h))
        &&& attrs_wf(d2.arena.attrs_of(h))
        &&& (d2.arena.is_element(h) ==> d2.arena.name_of(h).wf())
    } by {
        if h == k {
            assert(attrs_wf(Seq::<(QName, String)>::empty()));
        } else {
            assert(d0.arena.live(h));
        }
    }
}

/// Replacing the attribute table of a live element by another well-formed
/// table keeps the invariant.
#[verifier::rlimit(100)]
#[verifier::spinoff_prover]
pub(crate) proof fn lemma_set_attrs_only_wf(d0: Document, d2: Document, e: Element)
    requires
        d0.inner_wf(),
        d0.arena.is_element(e.0),
        d2.arena.wf(),
        d2.arena.live(e.0),
        d2.arena.value_of(e.0) == d0.arena.value_of(e.0),
        d2.arena.parent_of(e.0) == d0.arena.parent_of(e.0),
        attrs_wf(d2.arena.attrs_of(e.0)),
        forall|h: DocKey|
            h != e.0 ==> (#[trigger] d2.arena.live(h) == d0.arena.live(h) && (d0.arena.live(h)
                ==> d2.arena.value_of(h) == d0.arena.value_of(h) && d2.arena.parent_of(h)
                == d0.arena.parent_of(h) && d2.arena.attrs_of(h) == d0.arena.attrs_of(h))),
        forall|h: DocKey| #[trigger] d0.arena.bounded(h) ==> d2.arena.bounded(h),
        d2.root_key == d0.root_key,
        d2.before@ == d0.before@,
        d2.after@ == d0.after@,
    ensures
        d2.inner_wf(),
{
    broadcast use crate::arena::lemma_arena_name_of, crate::arena::lemma_arena_children_of, crate::arena::Arena::lemma_live_bounded;

    let rk = d0.root_key.0;
    assert(d0.arena.live(rk));
    if rk != e.0 {
        assert(d2.arena.live(rk) == d0.arena.live(rk));
    }
    assert(d2.arena.is_element(rk));
    assert(d2.arena.parent_of(rk) is None);
    assert forall|q: DocKey, i: int|
        #![trigger d2.arena.children_of(q)[i]]
        d2.arena.is_element(q) && 0 <= i < d2.arena.children_of(q).len() implies {
        let c = d2.arena.children_of(q)[i];
        &&& d2.handle_ok(c)
        &&& !(c is DocumentType)
        &&& d2.arena.parent_of(c.as_key()) == Some(Element(q))
    } by {
        let c = d2.arena.children_of(q)[i];
        if q != e.0 {
            assert(d2.arena.live(q) == d0.arena.live(q));
        }
        assert(d0.arena.is_element(q));
        assert(d2.arena.children_of(q) == d0.arena.children_of(q));
        assert(d0.arena.children_of(q)[i] == c);
        assert(d0.handle_ok(c));
        if c.spec_as_key() != e.0 {
            assert(d2.arena.live(c.spec_as_key()) == d0.arena.live(c.spec_as_key()));
        }
    }
    assert forall|q: DocKey, i: int, j: int|
        #![trigger d2.arena.children_of(q)[i], d2.arena.children_of(q)[j]]
        d2.arena.is_element(q) && 0 <= i < j < d2.arena.children_of(q).len() implies d2.arena.children_of(
        q,
    )[i] != d2.arena.children_of(q)[j] by {
        if q != e.0 {
            assert(d2.arena.live(q) == d0.arena.live(q));
        }
        assert(d0.arena.is_element(q));
        assert(d2.arena.children_of(q) == d0.arena.children_of(q));
    }
    assert forall|h: DocKey|
        #![trigger d2.arena.parent_of(h)]
        d2.arena.live(h) && d2.arena.parent_of(h) is Some implies {
        let pe = d2.arena.parent_of(h).unwrap();
        &&& d2.arena.bounded(pe.0)
        &&& pe.0 != h
        &&& d2.arena.live(pe.0) ==> (d2.arena.is_element(pe.0) && d2.arena.children_of(
            pe.0,
        ).contains(d2.handle_for(h)))
    } by {
        if h != e.0 {
            assert(d2.arena.live(h) == d0.arena.live(h));
        }
        assert(d0.arena.live(h));
        assert(d0.arena.parent_of(h) == d2.arena.parent_of(h));
        let pe = d2.arena.parent_of(h).unwrap();
        if d2.arena.live(pe.0) {
            if pe.0 != e.0 {
                assert(d2.arena.live(pe.0) == d0.arena.live(pe.0));
            }
            assert(d0.arena.live(pe.0));
            assert(d0.arena.children_of(pe.0).contains(d0.handle_for(h)));
            assert(d0.handle_for(h) == d2.handle_for(h));
            assert(d2.arena.children_of(pe.0) == d0.arena.children_of(pe.0));
        }
    }
    assert forall|i: int|
        #![trigger (d2.before@ + d2.after@)[i]]
        0 <= i < (d2.before@ + d2.after@).len() implies {
        let m = (d2.before@ + d2.after@)[i];
        &&& d2.handle_ok(m)
        &&& !(m is Element)
        &&& d2.arena.parent_of(m.as_key()) is None
    } by {
        let all0 = d0.before@ + d0.after@;
        assert((d2.before@ + d2.after@) =~= all0);
        let m = (d2.before@ + d2.after@)[i];
        assert(m == all0[i]);
        assert(d0.handle_ok(m));
        assert(m.spec_as_key() != e.0) by {
            if m.spec_as_key() == e.0 {
                assert(d0.arena.value_of(e.0) is Element);
            }
        }
        assert(d2.arena.live(m.spec_as_key()) == d0.arena.live(m.spec_as_key()));
    }
    assert((d2.before@ + d2.after@) =~= (d0.before@ + d0.after@));
    assert forall|h: DocKey| #[trigger] d2.arena.live(h) implies {
        &&& (d2.arena.attrs_of(h).len() > 0 ==> d2.arena.is_element(h))
        &&& attrs_wf(d2.arena.attrs_of(h))
        &&& (d2.arena.is_element(h) ==> d2.arena.name_of(h).wf())
    } by {
        if h != e.0 {
            assert(d2.arena.live(h) == d0.arena.live(h));
        }
        assert(d0.arena.live(h));
    }
}


/// Inserting the just-appended handle at an interior position is a
/// rearrangement of the same duplicate-free handles.
#[verifier::spinoff_prover]
proof fn lemma_move_last_perm(kids0: Seq<Node>, node: Node, at: int, d1: Document, p: Element)
    requires
        0 <= at <= kids0.len(),
        d1.inner_wf(),
        d1.arena.is_element(p.0),
        d1.arena.children_of(p.0) == kids0.push(node),
    ensures
        ({
            let s1 = kids0.push(node);
            let s2 = kids0.insert(at, node);
            &&& forall|i: int| 0 <= i < s2.len() ==> s1.contains(#[trigger] s2[i])
            &&& forall|i: int, j: int|
                #![trigger s2[i], s2[j]]
                0 <= i < j < s2.len() ==> s2[i] != s2[j]
            &&& forall|x: Node| s1.contains(x) ==> s2.contains(x)
        }),
{
    let s1 = kids0.push(node);
    let s2 = kids0.insert(at, node);
    assert forall|i: int| 0 <= i < s2.len() implies s1.contains(#[trigger] s2[i]) by {
        if i < at {
            assert(s2[i] == s1[i]);
        } else if i == at {
            assert(s2[i] == s1[s1.len() - 1]);
        } else {
            assert(s2[i] == s1[i - 1]);
        }
    }
    assert forall|i: int, j: int|
        #![trigger s2[i], s2[j]]
        0 <= i < j < s2.len() implies s2[i] != s2[j] by {
        let a = if i < at {
            i
        } else if i == at {
            s1.len() - 1
        } else {
            i - 1
        };
        let b = if j < at {
            j
        } else if j == at {
            s1.len() - 1
        } else {
            j - 1
        };
        assert(s2[i] == s1[a]);
        assert(s2[j] == s1[b]);
        assert(a != b);
        assert(d1.arena.children_of(p.0)[a] != d1.arena.children_of(p.0)[b]);
    }
    assert forall|x: Node| s1.contains(x) implies s2.contains(x) by {
        let i = choose|i: int| 0 <= i < s1.len() && s1[i] == x;
        if i == s1.len() - 1 {
            assert(s2[at] == x);
        } else {
            lemma_insert_keeps(kids0, at, node, i);
        }
    }
}

/// Every node around the root is a live handle of the right kind.
pub(crate) proof fn lemma_floating_handles(d: Document)
    requires
        d.wf(),
    ensures
        d.spec_before() == d.before@,
        d.spec_after() == d.after@,
        forall|i: int|
            0 <= i < d.before@.len() ==> d.handle_ok_pub(#[trigger] d.before@[i]),
        forall|i: int| 0 <= i < d.after@.len() ==> d.handle_ok_pub(#[trigger] d.after@[i]),
{
    broadcast use group_doc_bridge;

    let all = d.before@ + d.after@;
    assert forall|i: int| 0 <= i < d.before@.len() implies d.handle_ok_pub(
        #[trigger] d.before@[i],
    ) by {
        assert(all[i] == d.before@[i]);
        assert(d.handle_ok(all[i]));
        lemma_doc_handle_ok(d, d.before@[i]);
    }
    assert forall|i: int| 0 <= i < d.after@.len() implies d.handle_ok_pub(
        #[trigger] d.after@[i],
    ) by {
        assert(all[d.before@.len() + i] == d.after@[i]);
        assert(d.handle_ok(all[d.before@.len() + i]));
        lemma_doc_handle_ok(d, d.after@[i]);
    }
}

/// Two documents that agree on liveness and payload at a key agree on its
/// element-ness, name and children there.
pub(crate) proof fn lemma_value_determines(d1: Document, d2: Document, k: DocKey)
    requires
        d2.live(k) == d1.live(k),
        d1.live(k) ==> d2.value_of(k) == d1.value_of(k),
    ensures
        d2.is_element_key(k) == d1.is_element_key(k),
        d1.live(k) ==> d2.name_of(k) == d1.name_of(k),
        d1.live(k) ==> d2.children_of(k) == d1.children_of(k),
{
    broadcast use crate::arena::lemma_arena_name_of, crate::arena::lemma_arena_children_of;

}

/// Replacing the lists around the root by rearrangements of the same handles
/// keeps the invariant.
#[verifier::rlimit(100)]
#[verifier::spinoff_prover]
pub(crate) proof fn lemma_reorder_floating_wf(d0: Document, d2: Document)
    requires
        d0.inner_wf(),
        d2.arena == d0.arena,
        d2.root_key == d0.root_key,
        d2.decl == d0.decl,
        (d2.before@ + d2.after@).to_multiset() == (d0.before@ + d0.after@).to_multiset(),
    ensures
        d2.inner_wf(),
{
    broadcast use crate::arena::lemma_arena_name_of, crate::arena::lemma_arena_children_of, crate::arena::Arena::lemma_live_bounded, vstd::seq_lib::group_to_multiset_ensures;

    let all0 = d0.before@ + d0.after@;
    let all2 = d2.before@ + d2.after@;
    assert forall|i: int|
        #![trigger all2[i]]
        0 <= i < all2.len() implies {
        let m = all2[i];
        &&& d2.handle_ok(m)
        &&& !(m is Element)
        &&& d2.arena.parent_of(m.as_key()) is None
    } by {
        assert(all2.contains(all2[i]));
        assert(all2.to_multiset().count(all2[i]) > 0);
        assert(all0.to_multiset().count(all2[i]) > 0);
        assert(all0.contains(all2[i]));
        let j = choose|j: int| 0 <= j < all0.len() && all0[j] == all2[i];
        assert(d0.handle_ok(all0[j]));
    }
    assert forall|i: int, j: int|
        #![trigger all2[i], all2[j]]
        0 <= i < j < all2.len() implies all2[i] != all2[j] by {
        if all2[i] == all2[j] {
            assert(all0.no_duplicates()) by {
                assert(forall|a: int, b: int| 0 <= a < b < all0.len() ==> all0[a] != all0[b]);
            }
            all0.lemma_multiset_has_no_duplicates();
            assert(all2.no_duplicates()) by {
                all2.lemma_multiset_has_no_duplicates_conv();
            }
        }
    }
}

/// The lists around the root hold no element handles.
pub(crate) proof fn lemma_floating_members(d: Document)
    requires
        d.wf(),
    ensures
        forall|i: int| 0 <= i < d.before@.len() ==> !((#[trigger] d.before@[i]) is Element),
        forall|i: int| 0 <= i < d.after@.len() ==> !((#[trigger] d.after@[i]) is Element),
{
    broadcast use group_doc_bridge;

    let all = d.before@ + d.after@;
    assert forall|i: int| 0 <= i < d.before@.len() implies !((#[trigger] d.before@[i]) is Element)
        by {
        assert(all[i] == d.before@[i]);
    }
    assert forall|i: int| 0 <= i < d.after@.len() implies !((#[trigger] d.after@[i]) is Element)
        by {
        assert(all[d.before@.len() + i] == d.after@[i]);
    }
}

/// The first doctype position in the list before the root, if any.
pub open spec fn first_doctype(before: Seq<Node>, i: int) -> Option<int>
    decreases before.len() - i,
{
    if i < 0 || i >= before.len() {
        None
    } else if before[i] is DocumentType {
        Some(i)
    } else {
        first_doctype(before, i + 1)
    }
}

/// Freeing one node of the lists around the root, removed from them, keeps
/// the invariant.
#[verifier::rlimit(100)]
#[verifier::spinoff_prover]
proof fn lemma_shrink_floating_wf(d1: Document, d2: Document, n: Node)
    requires
        d1.inner_wf(),
        (d1.before@ + d1.after@).contains(n),
        d2.root_key == d1.root_key,
        crate::arena::Arena::same_except(d1.arena, d2.arena, n.spec_as_key()),
        !d2.arena.live(n.spec_as_key()),
        d2.arena.wf(),
        forall|h: DocKey| #[trigger] d1.arena.bounded(h) ==> d2.arena.bounded(h),
        (d2.before@ + d2.after@).to_multiset() == (d1.before@ + d1.after@).to_multiset().remove(n),
    ensures
        d2.inner_wf(),
{
    broadcast use crate::arena::lemma_arena_name_of, crate::arena::lemma_arena_children_of, crate::arena::Arena::lemma_live_bounded, vstd::seq_lib::group_to_multiset_ensures, vstd::multiset::group_multiset_axioms;

    let nk = n.spec_as_key();
    let all1 = d1.before@ + d1.after@;
    let all2 = d2.before@ + d2.after@;
    assert(d1.handle_ok(n)) by {
        let i = choose|i: int| 0 <= i < all1.len() && all1[i] == n;
    }
    assert(d1.arena.parent_of(nk) is None) by {
        let i = choose|i: int| 0 <= i < all1.len() && all1[i] == n;
    }
    assert(!(n is Element)) by {
        let i = choose|i: int| 0 <= i < all1.len() && all1[i] == n;
    }
    assert(all1.no_duplicates()) by {
        assert(forall|a: int, b: int| 0 <= a < b < all1.len() ==> all1[a] != all1[b]);
    }
    all1.lemma_multiset_has_no_duplicates();
    let rk = d1.root_key.0;
    assert(d1.arena.live(rk));
    assert(rk != nk) by {
        if rk == nk {
            assert(d1.arena.value_of(rk) is Element);
            assert(d1.handle_ok(n));
        }
    }
    assert(d2.arena.live(rk) == d1.arena.live(rk));
    assert(d2.arena.is_element(rk));
    assert(d2.arena.parent_of(rk) is None);
    assert forall|p: DocKey, i: int|
        #![trigger d2.arena.children_of(p)[i]]
        d2.arena.is_element(p) && 0 <= i < d2.arena.children_of(p).len() implies {
        let c = d2.arena.children_of(p)[i];
        &&& d2.handle_ok(c)
        &&& !(c is DocumentType)
        &&& d2.arena.parent_of(c.as_key()) == Some(Element(p))
    } by {
        assert(p != nk);
        assert(d2.arena.live(p) == d1.arena.live(p));
        assert(d1.arena.is_element(p));
        assert(d2.arena.children_of(p) == d1.arena.children_of(p));
        let c = d2.arena.children_of(p)[i];
        assert(d1.arena.children_of(p)[i] == c);
        assert(d1.handle_ok(c));
        assert(c.spec_as_key() != nk) by {
            if c.spec_as_key() == nk {
                assert(d1.arena.parent_of(c.as_key()) == Some(Element(p)));
            }
        }
        assert(d2.arena.live(c.spec_as_key()) == d1.arena.live(c.spec_as_key()));
    }
    assert forall|p: DocKey, i: int, j: int|
        #![trigger d2.arena.children_of(p)[i], d2.arena.children_of(p)[j]]
        d2.arena.is_element(p) && 0 <= i < j < d2.arena.children_of(p).len() implies d2.arena.children_of(
        p,
    )[i] != d2.arena.children_of(p)[j] by {
        assert(p != nk);
        assert(d2.arena.live(p) == d1.arena.live(p));
        assert(d1.arena.is_element(p));
        assert(d2.arena.children_of(p) == d1.arena.children_of(p));
    }
    assert forall|h: DocKey|
        #![trigger d2.arena.parent_of(h)]
        d2.arena.live(h) && d2.arena.parent_of(h) is Some implies {
        let pe = d2.arena.parent_of(h).unwrap();
        &&& d2.arena.bounded(pe.0)
        &&& pe.0 != h
        &&& d2.arena.live(pe.0) ==> (d2.arena.is_element(pe.0) && d2.arena.children_of(
            pe.0,
        ).contains(d2.handle_for(h)))
    } by {
        assert(h != nk);
        assert(d2.arena.live(h) == d1.arena.live(h));
        assert(d1.arena.live(h));
        assert(d1.arena.parent_of(h) == d2.arena.parent_of(h));
        let pe = d2.arena.parent_of(h).unwrap();
        if d2.arena.live(pe.0) {
            assert(pe.0 != nk);
            assert(d2.arena.live(pe.0) == d1.arena.live(pe.0));
            assert(d1.arena.live(pe.0));
            assert(d1.arena.children_of(pe.0).contains(d1.handle_for(h)));
            assert(d1.handle_for(h) == d2.handle_for(h));
            assert(d2.arena.children_of(pe.0) == d1.arena.children_of(pe.0));
        }
    }
    assert forall|i: int|
        #![trigger all2[i]]
        0 <= i < all2.len() implies {
        let m = all2[i];
        &&& d2.handle_ok(m)
        &&& !(m is Element)
        &&& d2.arena.parent_of(m.as_key()) is None
    } by {
        let m = all2[i];
        assert(all2.contains(m));
        assert(all2.to_multiset().count(m) > 0);
        assert(m != n) by {
            if m == n {
                assert(all1.to_multiset().count(n) <= 1) by {
                    assert(all1.contains(n));
                    assert(all1.to_multiset().contains(n));
                }
                assert(all2.to_multiset().count(n) == all1.to_multiset().count(n) - 1);
            }
        }
        assert(all1.to_multiset().count(m) > 0);
        assert(all1.contains(m));
        let j = choose|j: int| 0 <= j < all1.len() && all1[j] == m;
        assert(d1.handle_ok(m));
        assert(m.spec_as_key() != nk) by {
            if m.spec_as_key() == nk {
                assert(m == n) by {
                    assert(d1.handle_ok(n));
                }
            }
        }
        assert(d2.arena.live(m.spec_as_key()) == d1.arena.live(m.spec_as_key()));
    }
    assert forall|i: int, j: int|
        #![trigger all2[i], all2[j]]
        0 <= i < j < all2.len() implies all2[i] != all2[j] by {
        if all2[i] == all2[j] {
            assert(all2.no_duplicates()) by {
                assert forall|x: Node|
                    all2.to_multiset().contains(x) implies all2.to_multiset().count(x) == 1 by {
                    assert(all2.to_multiset().count(x) <= all1.to_multiset().count(x));
                    assert(all1.contains(x)) by {
                        assert(all1.to_multiset().count(x) > 0);
                    }
                }
                all2.lemma_multiset_has_no_duplicates_conv();
            }
        }
    }
    assert forall|h: DocKey| #[trigger] d2.arena.live(h) implies {
        &&& (d2.arena.attrs_of(h).len() > 0 ==> d2.arena.is_element(h))
        &&& attrs_wf(d2.arena.attrs_of(h))
        &&& (d2.arena.is_element(h) ==> d2.arena.name_of(h).wf())
    } by {
        assert(h != nk);
        assert(d2.arena.live(h) == d1.arena.live(h));
        assert(d1.arena.live(h));
    }
}

impl Document {
    /// Finds the first doctype node in the list before the root.
    fn find_doctype(&self) -> (r: Option<usize>)
        ensures
            match r {
                Some(i) => first_doctype(self.spec_before(), 0) == Some(i as int) && i
                    < self.spec_before().len() && self.spec_before()[i as int] is DocumentType,
                None => first_doctype(self.spec_before(), 0) is None,
            },
    {
        broadcast use group_doc_bridge;

        let mut i: usize = 0;
        while i < self.before.len()
            invariant
                i <= self.before@.len(),
                first_doctype(self.before@, 0) == first_doctype(self.before@, i as int),
            decreases self.before@.len() - i,
        {
            match self.before[i] {
                Node::DocumentType(_) => {
                    return Some(i);
                },
                _ => {},
            }
            i += 1;
        }
        None
    }

    /// The text of the first doctype node before the root, if any.
    pub fn doctype(&self) -> (r: Option<&str>)
        requires
            self.wf(),
        ensures
            match r {
                Some(s) => first_doctype(self.spec_before(), 0) matches Some(i) && (self.value_of(
                    self.spec_before()[i].spec_as_key(),
                ) matches NodeValue::DocumentType(c) && c@ == s@),
                None => first_doctype(self.spec_before(), 0) is None,
            },
    {
        broadcast use group_doc_bridge;

        let i = match self.find_doctype() {
            Some(i) => i,
            None => {
                return None;
            },
        };
        let n = self.before[i];
        proof {
            let all = self.before@ + self.after@;
            assert(all[i as int] == self.before@[i as int]);
            assert(self.handle_ok(n));
        }
        match self.arena.value(n.as_key()) {
            Some(NodeValue::DocumentType(s)) => Some(s.as_str()),
            _ => {
                proof {
                    assert(false);
                }
                None
            },
        }
    }

    /// Manages the singleton doctype: `Some` replaces the first doctype node
    /// before the root in place, freeing the old one, or inserts one at the
    /// front when none exists; `None` removes and frees the first doctype
    /// node, if any.
    #[verifier::rlimit(100)]
    #[verifier::spinoff_prover]
    pub fn set_doctype(&mut self, doctype: Option<&str>)
        requires
            old(self).wf(),
        ensures
            final(self).wf(),
            final(self).spec_root() == old(self).spec_root(),
            final(self).spec_decl() == old(self).spec_decl(),
            final(self).spec_after() == old(self).spec_after(),
            match doctype {
                Some(v) => exists|dt: crate::key::DocumentType|
                    {
                        &&& #[trigger] final(self).value_of(
                            dt.0,
                        ) matches NodeValue::DocumentType(c) && c@ == v@
                        &&& final(self).live(dt.0)
                        &&& match first_doctype(old(self).spec_before(), 0) {
                            Some(i) => final(self).spec_before() == old(
                                self,
                            ).spec_before().update(i, Node::DocumentType(dt)) && !final(self).live(
                                old(self).spec_before()[i].spec_as_key(),
                            ),
                            None => final(self).spec_before() == seq![Node::DocumentType(dt)]
                                + old(self).spec_before(),
                        }
                    },
                None => match first_doctype(old(self).spec_before(), 0) {
                    Some(i) => final(self).spec_before() == old(self).spec_before().remove(i)
                        && !final(self).live(old(self).spec_before()[i].spec_as_key()),
                    None => final(self).spec_before() == old(self).spec_before(),
                },
            },
    {
        broadcast use group_doc_bridge, vstd::seq_lib::group_to_multiset_ensures, vstd::multiset::group_multiset_axioms;

        let ghost d0 = *self;
        let idx = self.find_doctype();
        match doctype {
            None => {
                let i = match idx {
                    Some(i) => i,
                    None => {
                        return ;
                    },
                };
                let old_n = self.before[i];
                proof {
                    let all = d0.before@ + d0.after@;
                    assert(all[i as int] == d0.before@[i as int]);
                    assert(all.contains(old_n));
                }
                self.before.remove(i);
                self.arena.remove(old_n.as_key());
                proof {
                    let d2 = *self;
                    assert(d2.before@ =~= d0.before@.remove(i as int));
                    assert((d2.before@ + d2.after@).to_multiset() =~= (d0.before@
                        + d0.after@).to_multiset().remove(old_n)) by {
                        vstd::seq_lib::lemma_multiset_commutative(d2.before@, d2.after@);
                        vstd::seq_lib::lemma_multiset_commutative(d0.before@, d0.after@);
                        assert(d0.before@.remove(i as int).to_multiset()
                            =~= d0.before@.to_multiset().remove(old_n));
                    }
                    lemma_shrink_floating_wf(d0, d2, old_n);
                    assert(!d2.live(old_n.spec_as_key()));
                }
            },
            Some(v) => {
                let node = self.push_floating(NodeValue::DocumentType(v.to_owned()), false);
                let ghost d1 = *self;
                let dt = match node {
                    Node::DocumentType(dt) => dt,
                    _ => {
                        proof {
                            assert(false);
                        }
                        return ;
                    },
                };
                match idx {
                    Some(i) => {
                        let old_n = self.before[i];
                        proof {
                            assert(d1.before@ =~= d0.before@.push(node));
                            assert(d1.before@[i as int] == d0.before@[i as int]);
                            assert(old_n != node) by {
                                let all = d0.before@ + d0.after@;
                                assert(all[i as int] == d0.before@[i as int]);
                                assert(d0.live(old_n.spec_as_key()));
                            }
                            let all1 = d1.before@ + d1.after@;
                            assert(all1[i as int] == d1.before@[i as int]);
                            assert(all1.contains(old_n));
                        }
                        self.before[i] = node;
                        self.before.pop();
                        self.arena.remove(old_n.as_key());
                        proof {
                            let d2 = *self;
                            assert(d2.before@ =~= d0.before@.update(i as int, node)) by {
                                assert(d2.before@ =~= d1.before@.update(i as int, node).drop_last());
                            }
                            assert((d2.before@ + d2.after@).to_multiset() =~= (d1.before@
                                + d1.after@).to_multiset().remove(old_n)) by {
                                vstd::seq_lib::lemma_multiset_commutative(d2.before@, d2.after@);
                                vstd::seq_lib::lemma_multiset_commutative(d1.before@, d1.after@);
                                assert(d2.before@ =~= d1.before@.update(i as int, node).drop_last());
                                assert(d1.before@.update(i as int, node).remove(i as int)
                                    =~= d1.before@.remove(i as int));
                                assert(d1.before@.update(i as int, node).to_multiset()
                                    =~= d1.before@.to_multiset().remove(old_n).insert(node)) by {
                                    let u = d1.before@.update(i as int, node);
                                    assert(u.remove(i as int).to_multiset()
                                        =~= u.to_multiset().remove(node)) by {
                                        assert(u[i as int] == node);
                                    }
                                    assert(d1.before@.remove(i as int).to_multiset()
                                        =~= d1.before@.to_multiset().remove(old_n)) by {
                                        assert(d1.before@[i as int] == old_n);
                                    }
                                    assert(u.to_multiset().count(node) > 0) by {
                                        assert(u[i as int] == node);
                                        assert(u.contains(node));
                                    }
                                }
                                assert(d2.before@.to_multiset() =~= d1.before@.to_multiset().remove(
                                    old_n,
                                )) by {
                                    let u = d1.before@.update(i as int, node);
                                    assert(u.drop_last() =~= u.remove(u.len() - 1));
                                    assert(u[u.len() - 1] == node) by {
                                        assert(d1.before@.last() == node);
                                    }
                                    assert(u.remove(u.len() - 1).to_multiset()
                                        =~= u.to_multiset().remove(node));
                                }
                            }
                            lemma_shrink_floating_wf(d1, d2, old_n);
                            assert(old_n.spec_as_key() != node.spec_as_key()) by {
                                let all0 = d0.before@ + d0.after@;
                                assert(all0[i as int] == d0.before@[i as int]);
                                assert(d0.handle_ok(old_n));
                                lemma_doc_live(d0, old_n.spec_as_key());
                                assert(d0.live(old_n.spec_as_key()));
                            }
                            assert(d2.arena.live(dt.0) == d1.arena.live(dt.0));
                            assert(d2.arena.value_of(dt.0) == d1.arena.value_of(dt.0));
                            lemma_doc_value(d2, dt.0);
                            lemma_doc_value(d1, dt.0);
                            lemma_doc_live(d2, dt.0);
                            lemma_doc_live(d1, dt.0);
                            assert(!d2.live(old_n.spec_as_key()));
                            assert(d2.value_of(dt.0) matches NodeValue::DocumentType(c) && c@
                                == v@);
                            assert(d2.live(dt.0));
                            assert(first_doctype(d0.spec_before(), 0) == Some(i as int));
                        }
                    },
                    None => {
                        let node2 = match self.before.pop() {
                            Some(x) => x,
                            None => {
                                proof {
                                    assert(false);
                                }
                                return ;
                            },
                        };
                        self.before.insert(0, node2);
                        proof {
                            let d2 = *self;
                            assert(node2 == node) by {
                                assert(d1.before@.last() == node);
                            }
                            assert(d2.before@ =~= seq![node] + d0.before@) by {
                                assert(d1.before@.drop_last() =~= d0.before@);
                            }
                            assert((d2.before@ + d2.after@).to_multiset() =~= (d1.before@
                                + d1.after@).to_multiset()) by {
                                vstd::seq_lib::lemma_multiset_commutative(d2.before@, d2.after@);
                                vstd::seq_lib::lemma_multiset_commutative(d1.before@, d1.after@);
                                assert(d2.before@.to_multiset() =~= d1.before@.to_multiset()) by {
                                    assert(d2.before@.drop_first() =~= d0.before@);
                                    assert(d2.before@.remove(0).to_multiset()
                                        =~= d2.before@.to_multiset().remove(node)) by {
                                        assert(d2.before@[0] == node);
                                    }
                                    assert(d2.before@.remove(0) =~= d0.before@);
                                    assert(d1.before@.to_multiset()
                                        =~= d0.before@.to_multiset().insert(node));
                                    assert(d2.before@.to_multiset().count(node) > 0) by {
                                        assert(d2.before@[0] == node);
                                        assert(d2.before@.contains(node));
                                    }
                                }
                            }
                            lemma_reorder_floating_wf(d1, d2);
                            assert(d2.value_of(dt.0) matches NodeValue::DocumentType(c) && c@
                                == v@);
                            assert(d2.live(dt.0));
                            assert(first_doctype(d0.spec_before(), 0) is None);
                        }
                    },
                }
            },
        }
    }
}

/// A store that resolves the same keys to content-equal records carries the
/// invariant over.
#[verifier::rlimit(100)]
#[verifier::spinoff_prover]
proof fn lemma_clone_wf(d: Document, r: Document)
    requires
        d.inner_wf(),
        r.arena.wf(),
        forall|k: DocKey| #[trigger] r.arena.live(k) == d.arena.live(k),
        forall|k: DocKey| #[trigger] r.arena.bounded(k) == d.arena.bounded(k),
        forall|k: DocKey|
            #[trigger] d.arena.live(k) ==> (crate::value::value_like(
                r.arena.value_of(k),
                d.arena.value_of(k),
            ) && r.arena.parent_of(k) == d.arena.parent_of(k) && r.arena.attrs_of(k)
                == d.arena.attrs_of(k)),
        r.root_key == d.root_key,
        r.before@ == d.before@,
        r.after@ == d.after@,
    ensures
        r.inner_wf(),
        forall|k: DocKey| #[trigger] d.arena.is_element(k) ==> (r.arena.is_element(k)
            && r.arena.name_of(k) == d.arena.name_of(k) && r.arena.children_of(k)
            == d.arena.children_of(k)),
{
    broadcast use crate::arena::lemma_arena_name_of, crate::arena::lemma_arena_children_of, crate::arena::Arena::lemma_live_bounded, crate::value::lemma_ev_name, crate::value::lemma_ev_children;

    assert forall|k: DocKey| #[trigger] d.arena.is_element(k) implies (r.arena.is_element(k)
        && r.arena.name_of(k) == d.arena.name_of(k) && r.arena.children_of(k)
        == d.arena.children_of(k)) by {
        assert(crate::value::value_like(r.arena.value_of(k), d.arena.value_of(k)));
    }
    assert forall|k: DocKey| #[trigger] r.arena.is_element(k) implies d.arena.is_element(k) by {
        assert(crate::value::value_like(r.arena.value_of(k), d.arena.value_of(k)));
    }
    assert forall|k: DocKey|
        #[trigger] d.arena.live(k) implies r.handle_for(k) == d.handle_for(k) && (forall|n: Node|
        n.spec_as_key() == k ==> #[trigger] r.handle_ok(n) == d.handle_ok(n)) by {
        assert(crate::value::value_like(r.arena.value_of(k), d.arena.value_of(k)));
    }
    assert(r.arena.is_element(r.root_key.0));
    assert(r.arena.parent_of(r.root_key.0) is None);
    assert forall|p: DocKey, i: int|
        #![trigger r.arena.children_of(p)[i]]
        r.arena.is_element(p) && 0 <= i < r.arena.children_of(p).len() implies {
        let c = r.arena.children_of(p)[i];
        &&& r.handle_ok(c)
        &&& !(c is DocumentType)
        &&& r.arena.parent_of(c.as_key()) == Some(Element(p))
    } by {
        assert(d.arena.is_element(p));
        assert(r.arena.children_of(p) == d.arena.children_of(p));
        let c = r.arena.children_of(p)[i];
        assert(d.arena.children_of(p)[i] == c);
        assert(d.handle_ok(c));
        assert(r.handle_ok(c) == d.handle_ok(c));
    }
    assert forall|p: DocKey, i: int, j: int|
        #![trigger r.arena.children_of(p)[i], r.arena.children_of(p)[j]]
        r.arena.is_element(p) && 0 <= i < j < r.arena.children_of(p).len() implies r.arena.children_of(
        p,
    )[i] != r.arena.children_of(p)[j] by {
        assert(d.arena.is_element(p));
        assert(r.arena.children_of(p) == d.arena.children_of(p));
    }
    assert forall|h: DocKey|
        #![trigger r.arena.parent_of(h)]
        r.arena.live(h) && r.arena.parent_of(h) is Some implies {
        let pe = r.arena.parent_of(h).unwrap();
        &&& r.arena.bounded(pe.0)
        &&& pe.0 != h
        &&& r.arena.live(pe.0) ==> (r.arena.is_element(pe.0) && r.arena.children_of(pe.0).contains(
            r.handle_for(h),
        ))
    } by {
        assert(d.arena.live(h));
        assert(r.arena.parent_of(h) == d.arena.parent_of(h));
        let pe = r.arena.parent_of(h).unwrap();
        if r.arena.live(pe.0) {
            assert(d.arena.live(pe.0));
            assert(d.arena.children_of(pe.0).contains(d.handle_for(h)));
            assert(r.handle_for(h) == d.handle_for(h));
            assert(r.arena.children_of(pe.0) == d.arena.children_of(pe.0));
        }
    }
    assert forall|i: int|
        #![trigger (r.before@ + r.after@)[i]]
        0 <= i < (r.before@ + r.after@).len() implies {
        let m = (r.before@ + r.after@)[i];
        &&& r.handle_ok(m)
        &&& !(m is Element)
        &&& r.arena.parent_of(m.as_key()) is None
    } by {
        let all0 = d.before@ + d.after@;
        assert((r.before@ + r.after@) =~= all0);
        let m = (r.before@ + r.after@)[i];
        assert(m == all0[i]);
        assert(d.handle_ok(m));
        assert(r.handle_ok(m) == d.handle_ok(m));
    }
    assert((r.before@ + r.after@) =~= (d.before@ + d.after@));
    assert forall|h: DocKey| #[trigger] r.arena.live(h) implies {
        &&& (r.arena.attrs_of(h).len() > 0 ==> r.arena.is_element(h))
        &&& attrs_wf(r.arena.attrs_of(h))
        &&& (r.arena.is_element(h) ==> r.arena.name_of(h).wf())
    } by {
        assert(d.arena.live(h));
        assert(crate::value::value_like(r.arena.value_of(h), d.arena.value_of(h)));
    }
}

impl Document {
    /// A deep, independent copy: every key of this document resolves in the
    /// copy to a content-equal record, the surrounding lists, root and
    /// declaration read the same, and no storage is shared, so mutating
    /// either document never affects the other.
    pub fn deep_clone(&self) -> (r: Document)
        requires
            self.wf(),
        ensures
            r.wf(),
            r.spec_root() == self.spec_root(),
            r.spec_before() == self.spec_before(),
            r.spec_after() == self.spec_after(),
            forall|k: DocKey| #[trigger] r.live(k) == self.live(k),
            forall|k: DocKey|
                #[trigger] self.live(k) ==> (crate::value::value_like(
                    r.value_of(k),
                    self.value_of(k),
                ) && r.parent_of(k) == self.parent_of(k) && r.attrs_of(k) == self.attrs_of(k)),
            match (r.spec_decl(), self.spec_decl()) {
                (Some(a), Some(b)) => {
                    &&& match (a.version, b.version) {
                        (Some(x), Some(y)) => x@ == y@,
                        (None, None) => true,
                        _ => false,
                    }
                    &&& match (a.encoding, b.encoding) {
                        (Some(x), Some(y)) => x@ == y@,
                        (None, None) => true,
                        _ => false,
                    }
                    &&& match (a.standalone, b.standalone) {
                        (Some(x), Some(y)) => x@ == y@,
                        (None, None) => true,
                        _ => false,
                    }
                },
                (None, None) => true,
                _ => false,
            },
    {
        broadcast use group_doc_bridge;

        let arena = self.arena.deep_clone();
        let before = clone_nodes(&self.before);
        let after = clone_nodes(&self.after);
        let decl = match &self.decl {
            Some(d) => Some(d.clone()),
            None => None,
        };
        let r = Document { arena, root_key: self.root_key, before, after, decl };
        proof {
            lemma_clone_wf(*self, r);
        }
        r
    }
}

pub(crate) broadcast proof fn lemma_doc_live(d: Document, k: DocKey)
    ensures
        #[trigger] d.live(k) == d.inner_live(k),
{
}

pub(crate) broadcast proof fn lemma_doc_is_element(d: Document, k: DocKey)
    ensures
        #[trigger] d.is_element_key(k) == d.inner_is_element(k),
{
}

pub(crate) broadcast proof fn lemma_doc_value(d: Document, k: DocKey)
    ensures
        #[trigger] d.value_of(k) == d.inner_value_of(k),
{
}

pub(crate) broadcast proof fn lemma_doc_name(d: Document, k: DocKey)
    ensures
        #[trigger] d.name_of(k) == d.inner_name_of(k),
{
}

pub(crate) broadcast proof fn lemma_doc_children(d: Document, k: DocKey)
    ensures
        #[trigger] d.children_of(k) == d.inner_children_of(k),
{
}

pub(crate) broadcast proof fn lemma_doc_parent(d: Document, k: DocKey)
    ensures
        #[trigger] d.parent_of(k) == d.inner_parent_of(k),
{
}

pub(crate) broadcast proof fn lemma_doc_attrs(d: Document, k: DocKey)
    ensures
        #[trigger] d.attrs_of(k) == d.inner_attrs_of(k),
{
}

pub(crate) broadcast proof fn lemma_doc_shell(d: Document)
    ensures
        #[trigger] d.spec_root() == d.inner_root(),
        #[trigger] d.spec_before() == d.inner_before(),
        #[trigger] d.spec_after() == d.inner_after(),
        #[trigger] d.spec_decl() == d.inner_decl(),
{
}

pub(crate) broadcast proof fn lemma_doc_fuel(d: Document)
    ensures
        #[trigger] d.spec_fuel() == d.inner_fuel(),
{
}

pub(crate) broadcast proof fn lemma_doc_wf(d: Document)
    ensures
        #[trigger] d.wf() == d.inner_wf(),
{
}

pub(crate) broadcast group group_doc_bridge {
    lemma_doc_fuel,
    lemma_doc_live,
    lemma_doc_is_element,
    lemma_doc_value,
    lemma_doc_name,
    lemma_doc_children,
    lemma_doc_parent,
    lemma_doc_attrs,
    lemma_doc_shell,
    lemma_doc_wf,
}

} // verus!
