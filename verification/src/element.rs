//! The element handle and its navigation and mutation methods. Mutations
//! delegate to the document's verified core operations and carry the same
//! contracts.

use vstd::prelude::*;

use crate::attrs::attr_lookup;
use crate::attrs::dedup_attrs;
use crate::document::DocError;
use crate::document::Document;
use crate::key::CDataSection;
use crate::key::Comment;
use crate::key::DocKey;
use crate::key::Node;
use crate::key::Text;
use crate::qname::QName;
use crate::value::clone_nodes;
use crate::value::NodeValue;

verus! {

/// A freshly supplied element: a name and an attribute table, handed to the
/// creation calls. Duplicate attribute keys collapse to the last value at the
/// first occurrence's position.
#[derive(Debug)]
pub struct NewElement {
    pub name: QName,
    pub attrs: Vec<(QName, String)>,
}

impl NewElement {
    /// Every name in the value is well-formed; all names built by this crate
    /// are.
    pub open spec fn wf(self) -> bool {
        &&& self.name.wf()
        &&& forall|i: int| 0 <= i < self.attrs@.len() ==> (#[trigger] self.attrs@[i].0).wf()
    }
}

/// A copyable handle to an element node of a document.
#[derive(Debug, PartialEq, Eq, Structural, Copy, Clone)]
pub struct Element(pub DocKey);

impl Element {
    /// The same handle as an untyped node.
    pub fn as_node(&self) -> (r: Node)
        ensures
            r == Node::Element(*self),
    {
        Node::Element(*self)
    }

    /// Creates an element from `element` and appends it to this element's
    /// children.
    pub fn append_new_element(self, document: &mut Document, element: NewElement) -> (r: Result<
        Element,
        DocError,
    >)
        requires
            old(document).wf(),
            element.wf(),
        ensures
            r is Ok <==> old(document).live_element(self),
            r matches Err(_) ==> *final(document) == *old(document),
            r matches Ok(e) ==> {
                &&& final(document).wf()
                &&& !old(document).live(e.0)
                &&& final(document).is_element_key(e.0)
                &&& final(document).name_of(e.0) == element.name
                &&& final(document).attrs_of(e.0) == dedup_attrs(element.attrs@)
                &&& final(document).children_of(e.0) == Seq::<Node>::empty()
                &&& final(document).parent_of(e.0) == Some(self)
                &&& final(document).children_of(self.0) == old(document).children_of(self.0).push(
                    Node::Element(e),
                )
                &&& final(document).name_of(self.0) == old(document).name_of(self.0)
                &&& final(document).attrs_of(self.0) == old(document).attrs_of(self.0)
                &&& final(document).is_element_key(self.0)
                &&& forall|h: DocKey|
                    h != e.0 && h != self.0 ==> #[trigger] Document::unchanged_at(
                        *old(document),
                        *final(document),
                        h,
                    )
                &&& Document::same_shell(*old(document), *final(document))
            },
    {
        document.create_child_element(self, element)
    }

    /// Creates an element from `new_element` and inserts it among this
    /// element's parent's children, immediately after this element.
    pub fn append_new_element_after(self, document: &mut Document, new_element: NewElement) -> (r:
        Result<Element, DocError>)
        requires
            old(document).wf(),
            new_element.wf(),
        ensures
            r is Ok <==> (old(document).live_element(self) && (old(document).parent_of(
                self.0,
            ) matches Some(p) && old(document).is_element_key(p.0))),
            r matches Err(_) ==> *final(document) == *old(document),
            r matches Ok(ne) ==> {
                &&& final(document).wf()
                &&& !old(document).live(ne.0)
                &&& final(document).is_element_key(ne.0)
                &&& final(document).name_of(ne.0) == new_element.name
                &&& final(document).attrs_of(ne.0) == dedup_attrs(new_element.attrs@)
                &&& final(document).children_of(ne.0) == Seq::<Node>::empty()
                &&& final(document).is_element_key(self.0)
                &&& old(document).parent_of(self.0) matches Some(p) && ({
                    &&& final(document).is_element_key(p.0)
                    &&& final(document).parent_of(ne.0) == Some(p)
                }) && ({
                    let kids = old(document).children_of(p.0);
                    let pos = kids.index_of_first(Node::Element(self)).unwrap();
                    &&& kids.index_of_first(Node::Element(self)) is Some
                    &&& final(document).children_of(p.0) == kids.insert(pos + 1, Node::Element(ne))
                }) && forall|h: DocKey|
                    h != ne.0 && h != p.0 ==> #[trigger] Document::unchanged_at(
                        *old(document),
                        *final(document),
                        h,
                    )
                &&& Document::same_shell(*old(document), *final(document))
            },
    {
        document.do_append_new_element_after(self, new_element)
    }

    /// Re-parents an existing element subtree under this element, detaching
    /// it from its current parent first.
    pub fn append_element(self, document: &mut Document, element: Element) -> (r: Result<
        (),
        DocError,
    >)
        requires
            old(document).wf(),
        ensures
            r is Ok <==> (old(document).live_element(self) && old(document).live_element(element)
                && element.0 != old(document).spec_root().0 && element.0 != self.0),
            r matches Err(_) ==> *final(document) == *old(document),
            r is Ok ==> {
                &&& final(document).wf()
                &&& final(document).parent_of(element.0) == Some(self)
                &&& final(document).is_element_key(self.0)
                &&& final(document).is_element_key(element.0)
                &&& final(document).live(element.0)
                &&& final(document).value_of(element.0) == old(document).value_of(element.0)
                &&& final(document).attrs_of(element.0) == old(document).attrs_of(element.0)
                &&& final(document).children_of(self.0) == (if old(document).parent_of(element.0)
                    == Some(self) {
                    old(document).children_of(self.0).remove_value(Node::Element(element))
                } else {
                    old(document).children_of(self.0)
                }).push(Node::Element(element))
                &&& match old(document).parent_of(element.0) {
                    Some(op) => op != self && old(document).is_element_key(op.0) ==> {
                        &&& final(document).children_of(op.0) == old(document).children_of(
                            op.0,
                        ).remove_value(Node::Element(element))
                        &&& !final(document).children_of(op.0).contains(Node::Element(element))
                    },
                    None => true,
                }
                &&& Document::same_shell(*old(document), *final(document))
            },
    {
        document.do_append_element(self, element)
    }

    /// Appends a text node.
    pub fn append_text(self, document: &mut Document, text: &str) -> (r: Result<Text, DocError>)
        requires
            old(document).wf(),
        ensures
            r is Ok <==> old(document).live_element(self),
            r matches Err(_) ==> *final(document) == *old(document),
            r matches Ok(t) ==> {
                &&& final(document).wf()
                &&& !old(document).live(t.0)
                &&& final(document).value_of(t.0) matches NodeValue::Text(s) && s@ == text@
                &&& final(document).parent_of(t.0) == Some(self)
                &&& final(document).is_element_key(self.0)
                &&& final(document).children_of(self.0) == old(document).children_of(self.0).push(
                    Node::Text(t),
                )
                &&& forall|h: DocKey|
                    h != t.0 && h != self.0 ==> #[trigger] Document::unchanged_at(
                        *old(document),
                        *final(document),
                        h,
                    )
                &&& Document::same_shell(*old(document), *final(document))
            },
    {
        document.create_child_leaf_text(self, text)
    }

    /// Appends a CDATA section node.
    pub fn append_cdata(self, document: &mut Document, text: &str) -> (r: Result<
        CDataSection,
        DocError,
    >)
        requires
            old(document).wf(),
        ensures
            r is Ok <==> old(document).live_element(self),
            r matches Err(_) ==> *final(document) == *old(document),
            r matches Ok(t) ==> {
                &&& final(document).wf()
                &&& !old(document).live(t.0)
                &&& final(document).value_of(t.0) matches NodeValue::CData(s) && s@ == text@
                &&& final(document).parent_of(t.0) == Some(self)
                &&& final(document).is_element_key(self.0)
                &&& final(document).children_of(self.0) == old(document).children_of(self.0).push(
                    Node::CDataSection(t),
                )
                &&& Document::same_shell(*old(document), *final(document))
            },
    {
        document.create_child_leaf_cdata(self, text)
    }

    /// Appends a comment node.
    pub fn append_comment(self, document: &mut Document, text: &str) -> (r: Result<
        Comment,
        DocError,
    >)
        requires
            old(document).wf(),
        ensures
            r is Ok <==> old(document).live_element(self),
            r matches Err(_) ==> *final(document) == *old(document),
            r matches Ok(t) ==> {
                &&& final(document).wf()
                &&& !old(document).live(t.0)
                &&& final(document).value_of(t.0) matches NodeValue::Comment(s) && s@ == text@
                &&& final(document).parent_of(t.0) == Some(self)
                &&& final(document).is_element_key(self.0)
                &&& final(document).children_of(self.0) == old(document).children_of(self.0).push(
                    Node::Comment(t),
                )
                &&& Document::same_shell(*old(document), *final(document))
            },
    {
        document.create_child_leaf_comment(self, text)
    }

    /// Replaces all children of this element with a single text node; the
    /// former children are freed.
    pub fn set_text(self, document: &mut Document, text: &str) -> (r: Result<Text, DocError>)
        requires
            old(document).wf(),
        ensures
            r is Ok <==> old(document).live_element(self),
            r matches Err(_) ==> *final(document) == *old(document),
            r matches Ok(t) ==> {
                &&& final(document).wf()
                &&& final(document).is_element_key(self.0)
                &&& final(document).value_of(t.0) matches NodeValue::Text(s) && s@ == text@
                &&& final(document).children_of(self.0) == seq![Node::Text(t)]
                &&& final(document).name_of(self.0) == old(document).name_of(self.0)
                &&& final(document).attrs_of(self.0) == old(document).attrs_of(self.0)
                &&& Document::same_shell(*old(document), *final(document))
            },
    {
        document.do_set_text(self, text)
    }

    /// Removes `node` from this element's children and frees it; does
    /// nothing when `node` is not currently a child.
    pub fn remove_child(self, document: &mut Document, node: Node) -> (r: Result<bool, DocError>)
        requires
            old(document).wf(),
        ensures
            r is Ok <==> old(document).live_element(self),
            r matches Err(_) ==> *final(document) == *old(document),
            r == Ok::<bool, DocError>(false) ==> !old(document).children_of(self.0).contains(node)
                && *final(document) == *old(document),
            r == Ok::<bool, DocError>(true) ==> {
                &&& old(document).children_of(self.0).contains(node)
                &&& final(document).wf()
                &&& final(document).is_element_key(self.0)
                &&& final(document).children_of(self.0) == old(document).children_of(
                    self.0,
                ).remove_value(node)
                &&& !final(document).children_of(self.0).contains(node)
                &&& !final(document).live(node.spec_as_key())
                &&& forall|h: DocKey|
                    h != node.spec_as_key() && h != self.0 ==> #[trigger] Document::unchanged_at(
                        *old(document),
                        *final(document),
                        h,
                    )
                &&& Document::same_shell(*old(document), *final(document))
            },
    {
        document.do_remove_child(self, node)
    }

    /// Replaces or appends one attribute, keeping the table's order.
    pub fn set_attribute(&self, document: &mut Document, name: &str, value: &str) -> (r: Result<
        (),
        DocError,
    >)
        requires
            old(document).wf(),
        ensures
            r is Ok <==> (old(document).live_element(*self) && crate::qname::spec_valid_qname(
                name@,
            )),
            r matches Err(err) ==> *final(document) == *old(document) && (err
                == DocError::InvalidQName <==> !crate::qname::spec_valid_qname(name@)),
            r is Ok ==> {
                &&& final(document).wf()
                &&& final(document).is_element_key(self.0)
                &&& exists|q: QName, v: String|
                    q.wf() && q@ == name@ && v@ == value@ && final(document).attrs_of(self.0)
                        == #[trigger] crate::attrs::attr_upsert(
                        old(document).attrs_of(self.0),
                        q,
                        v,
                    )
                &&& final(document).value_of(self.0) == old(document).value_of(self.0)
                &&& forall|h: DocKey|
                    h != self.0 ==> #[trigger] Document::unchanged_at(
                        *old(document),
                        *final(document),
                        h,
                    )
                &&& Document::same_shell(*old(document), *final(document))
            },
    {
        document.do_set_attribute(*self, name, value)
    }

    /// The parent of this element, when it has one; `None` also for a stale
    /// handle.
    pub fn parent(self, document: &Document) -> (r: Option<Element>)
        ensures
            r == (if document.live(self.0) {
                document.parent_of(self.0)
            } else {
                None::<Element>
            }),
    {
        proof {
            crate::document::lemma_doc_live(*document, self.0);
            crate::document::lemma_doc_parent(*document, self.0);
        }
        document.arena.parent(self.0)
    }

    /// All children, of any kind, in order.
    pub fn child_nodes(self, document: &Document) -> (r: Vec<Node>)
        ensures
            document.is_element_key(self.0) ==> r@ == document.children_of(self.0),
            !document.is_element_key(self.0) ==> r@ == Seq::<Node>::empty(),
    {
        proof {
            crate::document::lemma_doc_is_element(*document, self.0);
            crate::document::lemma_doc_children(*document, self.0);
        }
        match document.arena.children(self.0) {
            Some(c) => clone_nodes(c),
            None => Vec::new(),
        }
    }

    /// The element children only, in order.
    pub fn children(self, document: &Document) -> (r: Vec<Element>)
        ensures
            document.is_element_key(self.0) ==> r@ == spec_element_children(
                document.children_of(self.0),
            ),
            !document.is_element_key(self.0) ==> r@ == Seq::<Element>::empty(),
    {
        proof {
            crate::document::lemma_doc_is_element(*document, self.0);
            crate::document::lemma_doc_children(*document, self.0);
        }
        let kids = match document.arena.children(self.0) {
            Some(c) => c,
            None => {
                return Vec::new();
            },
        };
        let mut r: Vec<Element> = Vec::new();
        let mut i: usize = 0;
        while i < kids.len()
            invariant
                i <= kids@.len(),
                r@ == spec_element_children(kids@.take(i as int)),
            decreases kids@.len() - i,
        {
            match kids[i] {
                Node::Element(e) => {
                    r.push(e);
                },
                _ => {},
            }
            proof {
                lemma_element_children_snoc(kids@.take(i + 1));
                assert(kids@.take(i + 1).drop_last() =~= kids@.take(i as int));
                assert(kids@.take(i + 1).last() == kids@[i as int]);
            }
            i += 1;
        }
        proof {
            assert(kids@.take(kids@.len() as int) =~= kids@);
        }
        r
    }

    /// The full prefixed name of this element.
    pub fn name<'d>(&self, document: &'d Document) -> (r: Option<&'d str>)
        ensures
            match r {
                Some(s) => document.is_element_key(self.0) && s@ == document.name_of(self.0)@,
                None => !document.is_element_key(self.0),
            },
    {
        proof {
            crate::document::lemma_doc_is_element(*document, self.0);
            crate::document::lemma_doc_name(*document, self.0);
        }
        match document.arena.name(self.0) {
            Some(q) => Some(q.prefixed_name()),
            None => None,
        }
    }

    /// The element's qualified name.
    pub fn qname(&self, document: &Document) -> (r: Option<QName>)
        ensures
            match r {
                Some(q) => document.is_element_key(self.0) && q == document.name_of(self.0),
                None => !document.is_element_key(self.0),
            },
    {
        proof {
            crate::document::lemma_doc_is_element(*document, self.0);
            crate::document::lemma_doc_name(*document, self.0);
        }
        match document.arena.name(self.0) {
            Some(q) => Some(q.clone()),
            None => None,
        }
    }

    /// The namespace prefix of this element's name, when it has one.
    pub fn prefix<'d>(&self, document: &'d Document) -> (r: Option<&'d str>)
        ensures
            match r {
                Some(s) => document.is_element_key(self.0) && document.name_of(
                    self.0,
                ).spec_namespace() == Some(s@),
                None => !document.is_element_key(self.0) || document.name_of(
                    self.0,
                ).spec_namespace() is None,
            },
    {
        proof {
            crate::document::lemma_doc_is_element(*document, self.0);
            crate::document::lemma_doc_name(*document, self.0);
        }
        match document.arena.name(self.0) {
            Some(q) => q.namespace(),
            None => None,
        }
    }

    /// The ordered attribute table; empty for a stale handle.
    pub fn attributes(&self, document: &Document) -> (r: Vec<(QName, String)>)
        ensures
            document.live(self.0) ==> r@ == document.attrs_of(self.0),
            !document.live(self.0) ==> r@ == Seq::<(QName, String)>::empty(),
    {
        proof {
            crate::document::lemma_doc_live(*document, self.0);
            crate::document::lemma_doc_attrs(*document, self.0);
        }
        match document.arena.attrs(self.0) {
            Some(a) => crate::value::clone_attrs(a),
            None => Vec::new(),
        }
    }

    /// The value of the attribute `name`, when present.
    pub fn attribute(&self, document: &Document, name: &str) -> (r: Option<String>)
        ensures
            match r {
                Some(v) => document.live(self.0) && attr_lookup(document.attrs_of(self.0), name@)
                    == Some(v@),
                None => !document.live(self.0) || attr_lookup(document.attrs_of(self.0), name@)
                    is None,
            },
    {
        proof {
            crate::document::lemma_doc_live(*document, self.0);
            crate::document::lemma_doc_attrs(*document, self.0);
        }
        let attrs = match document.arena.attrs(self.0) {
            Some(a) => a,
            None => {
                return None;
            },
        };
        proof {
            crate::attrs::lemma_attr_key_index(attrs@, name@);
        }
        match crate::attrs::find_attr(attrs, name) {
            Some(i) => Some(attrs[i].1.clone()),
            None => None,
        }
    }
}

/// The element handles among a list of children, in order.
pub open spec fn spec_element_children(kids: Seq<Node>) -> Seq<Element>
    decreases kids.len(),
{
    if kids.len() == 0 {
        Seq::empty()
    } else {
        let rest = spec_element_children(kids.drop_last());
        match kids.last() {
            Node::Element(e) => rest.push(e),
            _ => rest,
        }
    }
}

proof fn lemma_element_children_snoc(kids: Seq<Node>)
    requires
        kids.len() > 0,
    ensures
        spec_element_children(kids) == (match kids.last() {
            Node::Element(e) => spec_element_children(kids.drop_last()).push(e),
            _ => spec_element_children(kids.drop_last()),
        }),
{
}

/// The elements of the subtree below `k`, in pre-order, excluding `k`. The
/// fuel budget is spent once per element; the document's own budget exceeds
/// any tree the store can hold.
pub open spec fn spec_descendants(d: Document, k: DocKey, fuel: nat) -> Seq<Element>
    decreases fuel, 0int, 0int,
{
    if fuel == 0 {
        Seq::empty()
    } else {
        spec_descendants_list(d, d.children_of(k), 0, (fuel - 1) as nat)
    }
}

/// The pre-order elements contributed by the children from position `i` on.
pub open spec fn spec_descendants_list(d: Document, kids: Seq<Node>, i: int, fuel: nat) -> Seq<
    Element,
>
    decreases fuel, kids.len() - i, 1int,
{
    if i < 0 || i >= kids.len() {
        Seq::empty()
    } else {
        let rest = spec_descendants_list(d, kids, i + 1, fuel);
        match kids[i] {
            Node::Element(e) => seq![e] + spec_descendants(d, e.0, fuel) + rest,
            _ => rest,
        }
    }
}

/// Collects the pre-order descendants below a live element.
fn walk_into(d: &Document, out: &mut Vec<Element>, k: DocKey, fuel: usize)
    requires
        d.wf(),
        d.is_element_key(k),
    ensures
        final(out)@ == old(out)@ + spec_descendants(*d, k, fuel as nat),
    decreases fuel, 1int, 0int,
{
    broadcast use crate::document::group_doc_bridge;

    if fuel == 0 {
        return ;
    }
    let kids = match d.arena.children(k) {
        Some(c) => c,
        None => {
            proof {
                crate::document::lemma_doc_is_element(*d, k);
                assert(false);
            }
            return ;
        },
    };
    let mut i: usize = 0;
    while i < kids.len()
        invariant
            d.wf(),
            d.is_element_key(k),
            fuel >= 1,
            i <= kids@.len(),
            kids@ == d.children_of(k),
            out@ + spec_descendants_list(*d, kids@, i as int, (fuel - 1) as nat) == old(out)@
                + spec_descendants_list(*d, kids@, 0, (fuel - 1) as nat),
        decreases kids@.len() - i,
    {
        let ghost pre = out@;
        match kids[i] {
            Node::Element(e) => {
                proof {
                    crate::document::lemma_doc_children(*d, k);
                    crate::document::lemma_doc_wf(*d);
                    crate::document::lemma_doc_is_element(*d, k);
                    assert(d.arena.is_element(k));
                    assert(d.children_of(k)[i as int] == kids@[i as int]);
                    assert(d.arena.children_of(k)[i as int] == kids@[i as int]);
                    assert(d.handle_ok(kids@[i as int]));
                    crate::document::lemma_doc_is_element(*d, e.0);
                }
                out.push(e);
                walk_into(d, out, e.0, fuel - 1);
                proof {
                    assert(out@ =~= pre + (seq![e] + spec_descendants(
                        *d,
                        e.0,
                        (fuel - 1) as nat,
                    )));
                }
            },
            _ => {},
        }
        i += 1;
    }
    proof {
        assert(spec_descendants_list(*d, kids@, kids@.len() as int, (fuel - 1) as nat)
            =~= Seq::<Element>::empty());
        assert(out@ =~= out@ + Seq::<Element>::empty());
    }
}

/// A listed element is among the element children.
proof fn lemma_element_children_contains(kids: Seq<Node>, e: Element)
    requires
        kids.contains(Node::Element(e)),
    ensures
        spec_element_children(kids).contains(e),
    decreases kids.len(),
{
    if kids.len() > 0 {
        if kids.last() == Node::Element(e) {
            assert(spec_element_children(kids).last() == e);
            assert(spec_element_children(kids).contains(e));
        } else {
            let i = choose|i: int| 0 <= i < kids.len() && kids[i] == Node::Element(e);
            assert(kids.drop_last()[i] == Node::Element(e));
            assert(kids.drop_last().contains(Node::Element(e)));
            lemma_element_children_contains(kids.drop_last(), e);
            let j = choose|j: int|
                0 <= j < spec_element_children(kids.drop_last()).len()
                    && spec_element_children(kids.drop_last())[j] == e;
            match kids.last() {
                Node::Element(e2) => {
                    assert(spec_element_children(kids)[j] == e);
                },
                _ => {
                    assert(spec_element_children(kids)[j] == e);
                },
            }
        }
    }
}

impl Element {
    /// The elements of the subtree rooted at this element, in pre-order,
    /// excluding the element itself; a fresh call re-walks from scratch. The
    /// traversal budget of one more than the store's slot count is never
    /// exhausted by a tree the store holds.
    pub fn walk(&self, document: &Document) -> (r: Vec<Element>)
        requires
            document.wf(),
        ensures
            document.is_element_key(self.0) ==> r@ == spec_descendants(
                *document,
                self.0,
                document.spec_fuel(),
            ),
            !document.is_element_key(self.0) ==> r@ == Seq::<Element>::empty(),
    {
        broadcast use crate::document::group_doc_bridge;

        if !document.check_element(*self) {
            return Vec::new();
        }
        let mut out: Vec<Element> = Vec::new();
        let fuel = document.arena.slot_count();
        let fuel = if fuel < usize::MAX {
            fuel + 1
        } else {
            fuel
        };
        proof {
            assert(fuel as nat == document.spec_fuel());
        }
        walk_into(document, &mut out, self.0, fuel);
        out
    }

    /// The next element among this element's siblings, skipping non-element
    /// nodes; `None` at the end, for the root, and for a stale handle.
    pub fn next_sibling_element(&self, document: &Document) -> (r: Option<Element>)
        requires
            document.wf(),
        ensures
            ({
                let ok = document.is_element_key(self.0) && (document.parent_of(
                    self.0,
                ) matches Some(p) && document.is_element_key(p.0));
                match r {
                    Some(e2) => ok && (document.parent_of(self.0) matches Some(p) && {
                        let els = spec_element_children(document.children_of(p.0));
                        let pos = els.index_of_first(*self).unwrap();
                        &&& els.index_of_first(*self) is Some
                        &&& pos + 1 < els.len()
                        &&& e2 == els[pos + 1]
                    }),
                    None => !ok || (document.parent_of(self.0) matches Some(p) && {
                        let els = spec_element_children(document.children_of(p.0));
                        let pos = els.index_of_first(*self).unwrap();
                        &&& els.index_of_first(*self) is Some
                        &&& pos + 1 >= els.len()
                    }),
                }
            }),
    {
        let (els, pos) = match self.sibling_position(document) {
            Some(x) => x,
            None => {
                return None;
            },
        };
        proof {
            els@.index_of_first_ensures(*self);
        }
        if pos < els.len() && pos + 1 < els.len() {
            Some(els[pos + 1])
        } else {
            None
        }
    }

    /// The previous element among this element's siblings, skipping
    /// non-element nodes; `None` for the first element child, for the root,
    /// and for a stale handle.
    pub fn prev_sibling_element(&self, document: &Document) -> (r: Option<Element>)
        requires
            document.wf(),
        ensures
            ({
                let ok = document.is_element_key(self.0) && (document.parent_of(
                    self.0,
                ) matches Some(p) && document.is_element_key(p.0));
                match r {
                    Some(e2) => ok && (document.parent_of(self.0) matches Some(p) && {
                        let els = spec_element_children(document.children_of(p.0));
                        let pos = els.index_of_first(*self).unwrap();
                        &&& els.index_of_first(*self) is Some
                        &&& pos >= 1
                        &&& e2 == els[pos - 1]
                    }),
                    None => !ok || (document.parent_of(self.0) matches Some(p) && {
                        let els = spec_element_children(document.children_of(p.0));
                        let pos = els.index_of_first(*self).unwrap();
                        &&& els.index_of_first(*self) is Some
                        &&& pos == 0
                    }),
                }
            }),
    {
        let (els, pos) = match self.sibling_position(document) {
            Some(x) => x,
            None => {
                return None;
            },
        };
        proof {
            els@.index_of_first_ensures(*self);
        }
        if pos >= 1 && pos < els.len() {
            Some(els[pos - 1])
        } else {
            None
        }
    }

    /// This element's parent's element children and this element's first
    /// position among them.
    fn sibling_position(&self, document: &Document) -> (r: Option<(Vec<Element>, usize)>)
        requires
            document.wf(),
        ensures
            match r {
                Some((els, pos)) => {
                    &&& document.is_element_key(self.0)
                    &&& document.parent_of(self.0) matches Some(p) && document.is_element_key(p.0)
                        && els@ == spec_element_children(document.children_of(p.0))
                    &&& els@.index_of_first(*self) == Some(pos as int)
                },
                None => !(document.is_element_key(self.0) && (document.parent_of(
                    self.0,
                ) matches Some(p) && document.is_element_key(p.0))),
            },
    {
        broadcast use crate::document::group_doc_bridge;

        if !document.check_element(*self) {
            return None;
        }
        proof {
            crate::document::lemma_doc_live(*document, self.0);
            crate::document::lemma_doc_parent(*document, self.0);
            crate::document::lemma_doc_is_element(*document, self.0);
            crate::document::lemma_doc_wf(*document);
        }
        let p = match document.arena.parent(self.0) {
            Some(p) => p,
            None => {
                return None;
            },
        };
        if !document.check_element(p) {
            return None;
        }
        proof {
            crate::document::lemma_doc_is_element(*document, p.0);
            crate::document::lemma_doc_children(*document, p.0);
            assert(document.arena.children_of(p.0).contains(document.handle_for(self.0)));
            assert(document.handle_for(self.0) == Node::Element(*self));
            assert(document.children_of(p.0).contains(Node::Element(*self)));
            lemma_element_children_contains(document.children_of(p.0), *self);
        }
        let els = p.children(document);
        let mut i: usize = 0;
        while i < els.len()
            invariant
                i <= els@.len(),
                document.is_element_key(self.0),
                document.parent_of(self.0) == Some(p),
                document.is_element_key(p.0),
                els@ == spec_element_children(document.children_of(p.0)),
                els@.contains(*self),
                forall|j: int| 0 <= j < i ==> els@[j] != *self,
            decreases els@.len() - i,
        {
            if els[i] == *self {
                proof {
                    els@.index_of_first_ensures(*self);
                    assert(els@.contains(*self)) by {
                        assert(els@[i as int] == *self);
                    }
                    let fi = els@.index_of_first(*self).unwrap();
                    assert(fi == i) by {
                        if fi < i {
                            assert(els@[fi] == *self);
                        } else if fi > i {
                            assert(els@[i as int] != *self);
                        }
                    }
                    assert(document.is_element_key(self.0));
                    assert(document.parent_of(self.0) == Some(p));
                    assert(document.is_element_key(p.0));
                    assert(els@ == spec_element_children(document.children_of(p.0)));
                    assert(els@.index_of_first(*self) == Some(i as int));
                }
                return Some((els, i));
            }
            i += 1;
        }
        proof {
            let j = choose|j: int| 0 <= j < els@.len() && els@[j] == *self;
            assert(false);
        }
        None
    }
}

} // verus!
