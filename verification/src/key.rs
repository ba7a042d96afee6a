//! Handles into the document's node store: an opaque, copyable key carrying a
//! slot index and a generation tag, and typed wrappers for each node kind.

use vstd::prelude::*;

use crate::element::Element;

verus! {

/// A generation-tagged key into the node store. A key to a freed slot never
/// resolves to whatever node occupies that slot later.
#[derive(Debug, PartialEq, Eq, Structural, Copy, Clone, Hash)]
pub struct DocKey {
    pub(crate) idx: usize,
    pub(crate) gen: u64,
}

/// A handle to a text node.
#[derive(Debug, PartialEq, Eq, Structural, Copy, Clone)]
pub struct Text(pub DocKey);

/// A handle to a CDATA section node.
#[derive(Debug, PartialEq, Eq, Structural, Copy, Clone)]
pub struct CDataSection(pub DocKey);

/// A handle to a processing-instruction node.
#[derive(Debug, PartialEq, Eq, Structural, Copy, Clone)]
pub struct ProcessingInstruction(pub DocKey);

/// A handle to a comment node.
#[derive(Debug, PartialEq, Eq, Structural, Copy, Clone)]
pub struct Comment(pub DocKey);

/// A handle to a document-type node.
#[derive(Debug, PartialEq, Eq, Structural, Copy, Clone)]
pub struct DocumentType(pub DocKey);

/// A typed handle to any node.
#[derive(Debug, PartialEq, Eq, Structural, Copy, Clone)]
pub enum Node {
    Element(Element),
    Text(Text),
    CDataSection(CDataSection),
    ProcessingInstruction(ProcessingInstruction),
    Comment(Comment),
    DocumentType(DocumentType),
}

/// The ordinal reads the handle's slot index.
pub(crate) proof fn lemma_node_ordinal(n: Node)
    ensures
        n.spec_ordinal() == n.spec_as_key().idx as int,
{
}

impl Node {
    /// The untyped key under the handle.
    pub open spec fn spec_as_key(self) -> DocKey {
        match self {
            Node::Element(e) => e.0,
            Node::Text(e) => e.0,
            Node::CDataSection(e) => e.0,
            Node::ProcessingInstruction(e) => e.0,
            Node::Comment(e) => e.0,
            Node::DocumentType(e) => e.0,
        }
    }

    #[verifier::when_used_as_spec(spec_as_key)]
    pub(crate) fn as_key(self) -> (r: DocKey)
        ensures
            r == self.spec_as_key(),
    {
        match self {
            Node::Element(e) => e.0,
            Node::Text(e) => e.0,
            Node::CDataSection(e) => e.0,
            Node::ProcessingInstruction(e) => e.0,
            Node::Comment(e) => e.0,
            Node::DocumentType(e) => e.0,
        }
    }

    /// The original-appearance ordinal of the handle: nodes created earlier
    /// get smaller ordinals.
    pub closed spec fn spec_ordinal(self) -> int {
        self.spec_as_key().idx as int
    }

    /// The slot index of the handle: nodes created earlier get smaller
    /// ordinals, so this orders siblings by original appearance.
    pub(crate) open spec fn spec_to_ordinal(self) -> usize {
        self.spec_as_key().idx
    }

    #[verifier::when_used_as_spec(spec_to_ordinal)]
    pub(crate) fn to_ordinal(self) -> (r: usize)
        ensures
            r == self.spec_to_ordinal(),
    {
        self.as_key().idx
    }

    pub fn as_text(self) -> (r: Option<Text>)
        ensures
            r == (match self {
                Node::Text(e) => Some(e),
                _ => None::<Text>,
            }),
    {
        match self {
            Node::Text(e) => Some(e),
            _ => None,
        }
    }

    pub fn as_element(self) -> (r: Option<Element>)
        ensures
            r == (match self {
                Node::Element(e) => Some(e),
                _ => None::<Element>,
            }),
    {
        match self {
            Node::Element(e) => Some(e),
            _ => None,
        }
    }

    pub fn as_document_type(self) -> (r: Option<DocumentType>)
        ensures
            r == (match self {
                Node::DocumentType(e) => Some(e),
                _ => None::<DocumentType>,
            }),
    {
        match self {
            Node::DocumentType(e) => Some(e),
            _ => None,
        }
    }

    pub fn as_cdata(self) -> (r: Option<CDataSection>)
        ensures
            r == (match self {
                Node::CDataSection(e) => Some(e),
                _ => None::<CDataSection>,
            }),
    {
        match self {
            Node::CDataSection(e) => Some(e),
            _ => None,
        }
    }

    pub fn as_comment(self) -> (r: Option<Comment>)
        ensures
            r == (match self {
                Node::Comment(e) => Some(e),
                _ => None::<Comment>,
            }),
    {
        match self {
            Node::Comment(e) => Some(e),
            _ => None,
        }
    }

    pub fn as_processing_instruction(self) -> (r: Option<ProcessingInstruction>)
        ensures
            r == (match self {
                Node::ProcessingInstruction(e) => Some(e),
                _ => None::<ProcessingInstruction>,
            }),
    {
        match self {
            Node::ProcessingInstruction(e) => Some(e),
            _ => None,
        }
    }
}

} // verus!
