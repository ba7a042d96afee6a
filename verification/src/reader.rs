//! Building a document from text: a verified loader loop over the events of
//! an off-the-shelf pull-parser. While no element is open, nodes collect in
//! front of the root; once the root start-tag is seen, children are appended
//! through the document's mutation calls; content after the root closes
//! collects behind it. A start-tag after the root has closed is an error, as
//! is input without a root element.
//!
//! The tokenizer is deterministic: what the n-th pull over a given input
//! returns is a function of the input and n alone, named by `event_at`. The
//! loader's step is the verified `load_step`, specified event by event by
//! `step_rel` and `step_fails`; `from_bytes` returns exactly the outcome of
//! folding that step over the input's events.

use vstd::prelude::*;

use crate::attrs::dedup_attrs;
use crate::document::Declaration;
use crate::document::Document;
use crate::element::Element;
use crate::element::NewElement;
use crate::key::Node;
use crate::key::Text;
use crate::qname::spec_valid_qname;
use crate::qname::QName;
use crate::text::is_blank;
use crate::text::is_blank_chars;
use crate::value::NodeValue;
use quick_xml::events::Event;
use vstd::string::StringSliceAdditionalSpecFns;

verus! {

/// One decoded reader event, with unescaped text and raw names as strings;
/// `Fail` carries the tokenizer's error message.
pub enum XmlEvent {
    Decl { version: Option<String>, encoding: Option<String>, standalone: Option<String> },
    DocType(String),
    Start { name: String, attrs: Vec<(String, String)> },
    Empty { name: String, attrs: Vec<(String, String)> },
    End,
    Text(String),
    CData(String),
    Comment(String),
    Pi,
    Eof,
    Fail(String),
}

/// Why a document could not be read: a malformed token stream, a name that is
/// not a valid qualified name, or a second top-level element.
#[derive(Debug)]
pub enum ReadError {
    Parse(String),
    InvalidQName(String),
    SupplementaryElement(String),
}

impl ReadError {
    /// A short description of the failure.
    pub fn message(&self) -> (r: &str)
        ensures
            match self {
                ReadError::Parse(s) => r@ == s@,
                ReadError::InvalidQName(s) => r@ == s@,
                ReadError::SupplementaryElement(s) => r@ == s@,
            },
    {
        match self {
            ReadError::Parse(s) => s.as_str(),
            ReadError::InvalidQName(s) => s.as_str(),
            ReadError::SupplementaryElement(s) => s.as_str(),
        }
    }
}

/// A node collected before the root element exists, later materialized in
/// front of the root in order.
pub enum PreItem {
    DocType(String),
    Text(String),
    CData(String),
    Comment(String),
}

/// The loader's state between events: the document once its root has been
/// seen, the declaration and leading nodes collected before that, whether a
/// doctype was already taken, and the stack of open elements.
pub struct LoadState {
    pub doc: Option<Document>,
    pub decl: Option<Declaration>,
    pub saw_doctype: bool,
    pub pre: Vec<PreItem>,
    pub stack: Vec<Element>,
}

} // verus!

verus! {

#[verifier::external_type_specification]
#[verifier::external_body]
#[verifier::reject_recursive_types(R)]
pub struct ExReader<R>(quick_xml::reader::Reader<R>);

#[verifier::external_type_specification]
#[verifier::external_body]
#[verifier::reject_recursive_types(T)]
pub struct ExCursor<T>(std::io::Cursor<T>);

#[verifier::external_type_specification]
#[verifier::external_body]
pub struct ExBytesStart<'a>(quick_xml::events::BytesStart<'a>);

/// The tokenizer state: a reader over the input bytes, its scratch buffer,
/// a copy of the input, and a count of the events pulled so far.
struct Tokenizer {
    reader: quick_xml::reader::Reader<std::io::Cursor<Vec<u8>>>,
    buf: Vec<u8>,
    input: Vec<u8>,
    pos: usize,
}

/// What the `pos`-th pull of a tokenizer over `input` returns. The reader's
/// state is a function of the input and the number of pulls taken, so this
/// is well defined; `pull` is the one item that applies it.
pub uninterp spec fn event_at(input: Seq<u8>, pos: int) -> XmlEvent;

/// Relies on quick_xml::reader::Reader::from_reader: a fresh reader over the
/// given bytes, with the ghost cursor at the start.
#[verifier::external_body]
fn open_tokenizer(input: &[u8]) -> (r: Tokenizer)
    ensures
        r.input@ == input@,
        r.pos == 0,
{
    Tokenizer {
        reader: quick_xml::reader::Reader::from_reader(std::io::Cursor::new(input.to_vec())),
        buf: Vec::new(),
        input: input.to_vec(),
        pos: 0,
    }
}

/// Relies on quick_xml::reader::Reader::read_event_into: each pull yields
/// the next token of the input — by determinism, `event_at` of the cursor —
/// with names as raw bytes and content unescaped; reader errors come back as
/// `Fail`, never a panic.
#[verifier::external_body]
fn pull(t: &mut Tokenizer) -> (r: XmlEvent)
    requires
        old(t).pos < usize::MAX,
    ensures
        r == event_at(old(t).input@, old(t).pos as int),
        final(t).input@ == old(t).input@,
        final(t).pos == old(t).pos + 1,
{
    t.buf.clear();
    t.pos += 1;
    match t.reader.read_event_into(&mut t.buf) {
        Ok(ev) => conv_event(ev),
        Err(e) => XmlEvent::Fail(e.to_string()),
    }
}

#[verifier::external_type_specification]
#[verifier::external_body]
pub struct ExEvent<'a>(quick_xml::events::Event<'a>);

/// Tells the token kinds apart, one arm each.
#[verifier::external_body]
fn conv_event(ev: quick_xml::events::Event<'_>) -> (r: XmlEvent) {
    match ev {
        Event::Decl(d) => conv_decl(&d),
        Event::DocType(d) => conv_text_like(&d, 0),
        Event::Start(e) => conv_tag(&e, false),
        Event::Empty(e) => conv_tag(&e, true),
        Event::End(_) => XmlEvent::End,
        Event::Text(e) => conv_text_like(&e, 1),
        Event::CData(c) => conv_cdata(&c),
        Event::Comment(e) => conv_text_like(&e, 2),
        Event::PI(_) => XmlEvent::Pi,
        Event::Eof => XmlEvent::Eof,
    }
}

#[verifier::external_type_specification]
#[verifier::external_body]
pub struct ExBytesDecl<'a>(quick_xml::events::BytesDecl<'a>);

#[verifier::external_type_specification]
#[verifier::external_body]
pub struct ExBytesText<'a>(quick_xml::events::BytesText<'a>);

#[verifier::external_type_specification]
#[verifier::external_body]
pub struct ExBytesCData<'a>(quick_xml::events::BytesCData<'a>);

/// Relies on quick_xml::events::BytesDecl::version, ::encoding and
/// ::standalone: the declaration's fields, absent when missing or not UTF-8.
#[verifier::external_body]
fn conv_decl(d: &quick_xml::events::BytesDecl<'_>) -> (r: XmlEvent) {
    XmlEvent::Decl {
        version: opt_utf8(d.version().ok().map(|x| x.to_vec())),
        encoding: opt_utf8(d.encoding().and_then(|x| x.ok()).map(|x| x.to_vec())),
        standalone: opt_utf8(d.standalone().and_then(|x| x.ok()).map(|x| x.to_vec())),
    }
}

/// Relies on String::from_utf8: the bytes as a string, when they decode.
#[verifier::external_body]
fn opt_utf8(x: Option<Vec<u8>>) -> (r: Option<String>) {
    x.and_then(|v| String::from_utf8(v).ok())
}

/// Relies on quick_xml::events::BytesText::unescape: the decoded content of
/// a doctype, text or comment token, or its error.
#[verifier::external_body]
fn conv_text_like(d: &quick_xml::events::BytesText<'_>, kind: u8) -> (r: XmlEvent) {
    match d.unescape() {
        Ok(s) if kind == 0 => XmlEvent::DocType(s.into_owned()),
        Ok(s) if kind == 1 => XmlEvent::Text(s.into_owned()),
        Ok(s) => XmlEvent::Comment(s.into_owned()),
        Err(e) => XmlEvent::Fail(e.to_string()),
    }
}

/// Relies on quick_xml::events::BytesCData: the raw bytes of a CDATA token,
/// decoded as UTF-8.
#[verifier::external_body]
fn conv_cdata(c: &quick_xml::events::BytesCData<'_>) -> (r: XmlEvent) {
    match std::str::from_utf8(c.as_ref()) {
        Ok(s) => XmlEvent::CData(s.to_string()),
        Err(e) => XmlEvent::Fail(e.to_string()),
    }
}

/// Relies on quick_xml::events::BytesStart::name: the tag's name bytes,
/// decoded as UTF-8.
#[verifier::external_body]
fn conv_tag_name(e: &quick_xml::events::BytesStart<'_>) -> (r: Result<String, String>) {
    match std::str::from_utf8(e.name().into_inner()) {
        Ok(s) => Ok(s.to_string()),
        Err(err) => Err(err.to_string()),
    }
}

/// Relies on quick_xml::events::BytesStart::attributes: the tag's attribute
/// keys and unescaped values, in order, or the first decoding error.
#[verifier::external_body]
fn conv_tag_attrs(e: &quick_xml::events::BytesStart<'_>) -> (r: Result<
    Vec<(String, String)>,
    String,
>) {
    let mut attrs: Vec<(String, String)> = Vec::new();
    for attr in e.attributes() {
        let a = attr.map_err(|err| err.to_string())?;
        let key = std::str::from_utf8(a.key.into_inner()).map_err(|e| e.to_string())?;
        let value = a.unescape_value().map_err(|err| err.to_string())?;
        attrs.push((key.to_string(), value.into_owned()));
    }
    Ok(attrs)
}

/// Decodes a start or empty tag into an event.
#[verifier::external_body]
fn conv_tag(e: &quick_xml::events::BytesStart<'_>, empty: bool) -> (r: XmlEvent) {
    let name = match conv_tag_name(e) {
        Ok(n) => n,
        Err(m) => return XmlEvent::Fail(m),
    };
    match conv_tag_attrs(e) {
        Ok(attrs) if empty => XmlEvent::Empty { name, attrs },
        Ok(attrs) => XmlEvent::Start { name, attrs },
        Err(m) => XmlEvent::Fail(m),
    }
}

/// A table whose entries read, name for name and value for value, as the raw
/// string pairs.
pub open spec fn table_views(table: Seq<(QName, String)>, raw: Seq<(String, String)>) -> bool {
    &&& table.len() == raw.len()
    &&& forall|i: int|
        0 <= i < table.len() ==> ((#[trigger] table[i]).0.wf() && table[i].0@ == raw[i].0@
            && table[i].1@ == raw[i].1@)
}

/// Every raw attribute key is a valid qualified name.
pub open spec fn keys_valid(raw: Seq<(String, String)>) -> bool {
    forall|i: int| 0 <= i < raw.len() ==> spec_valid_qname((#[trigger] raw[i]).0@)
}

/// The free-standing node `n` of `d` holds the collected item `it`.
pub open spec fn pre_matches(d: Document, n: Node, it: PreItem) -> bool {
    &&& d.live(n.spec_as_key())
    &&& match it {
        PreItem::DocType(s) => n is DocumentType && (d.value_of(
            n.spec_as_key(),
        ) matches NodeValue::DocumentType(c) && c@ == s@),
        PreItem::Text(s) => n is Text && (d.value_of(n.spec_as_key()) matches NodeValue::Text(c)
            && c@ == s@),
        PreItem::CData(s) => n is CDataSection && (d.value_of(
            n.spec_as_key(),
        ) matches NodeValue::CData(c) && c@ == s@),
        PreItem::Comment(s) => n is Comment && (d.value_of(
            n.spec_as_key(),
        ) matches NodeValue::Comment(c) && c@ == s@),
    }
}

/// The document built by a root tag: the declaration taken as collected, the
/// leading nodes in order, an attribute-table fold over the tag's pairs, no
/// children yet, nothing after the root.
pub open spec fn built_doc(
    d: Document,
    name: Seq<char>,
    raw: Seq<(String, String)>,
    decl0: Option<Declaration>,
    pre0: Seq<PreItem>,
) -> bool {
    &&& d.wf()
    &&& d.is_element_key(d.spec_root().0)
    &&& d.name_of(d.spec_root().0)@ == name
    &&& d.spec_decl() == decl0
    &&& d.spec_after() == Seq::<Node>::empty()
    &&& d.children_of(d.spec_root().0) == Seq::<Node>::empty()
    &&& d.spec_before().len() == pre0.len()
    &&& forall|i: int|
        0 <= i < pre0.len() ==> pre_matches(d, #[trigger] d.spec_before()[i], pre0[i])
    &&& exists|table: Seq<(QName, String)>|
        #[trigger] table_views(table, raw) && d.attrs_of(d.spec_root().0) == dedup_attrs(table)
}

/// A child element freshly created under `top` from a tag's name and pairs.
pub open spec fn new_element_under(
    d0: Document,
    d1: Document,
    top: Element,
    e: Element,
    name: Seq<char>,
    raw: Seq<(String, String)>,
) -> bool {
    &&& !d0.live(e.0)
    &&& d1.is_element_key(e.0)
    &&& d1.name_of(e.0)@ == name
    &&& d1.children_of(e.0) == Seq::<Node>::empty()
    &&& d1.parent_of(e.0) == Some(top)
    &&& d1.children_of(top.0) == d0.children_of(top.0).push(Node::Element(e))
    &&& Document::same_shell(d0, d1)
    &&& exists|table: Seq<(QName, String)>|
        #[trigger] table_views(table, raw) && d1.attrs_of(e.0) == dedup_attrs(table)
}

/// A text node with content `s` appended under `top`.
pub open spec fn appended_text(d0: Document, d1: Document, top: Element, s: Seq<char>) -> bool {
    exists|t: Text|
        {
            &&& #[trigger] d1.parent_of(t.0) == Some(top)
            &&& !d0.live(t.0)
            &&& d1.value_of(t.0) matches NodeValue::Text(c) && c@ == s
            &&& d1.children_of(top.0) == d0.children_of(top.0).push(Node::Text(t))
            &&& Document::same_shell(d0, d1)
        }
}

/// A node holding `v` appended to the list after the root.
pub open spec fn appended_after(d0: Document, d1: Document, v: NodeValue) -> bool {
    exists|n: Node|
        {
            &&& #[trigger] d1.value_of(n.spec_as_key()) == v
            &&& d1.live(n.spec_as_key())
            &&& d1.spec_after() == d0.spec_after().push(n)
            &&& d1.spec_before() == d0.spec_before()
            &&& d1.spec_root() == d0.spec_root()
            &&& d1.spec_decl() == d0.spec_decl()
        }
}

/// A leaf node appended under `top`, of the handle kind picked by `node_of`
/// and with a payload satisfying `val_of`; used for CDATA and comments.
pub open spec fn appended_leaf(
    d0: Document,
    d1: Document,
    top: Element,
    node_of: spec_fn(Node) -> bool,
    val_of: spec_fn(NodeValue) -> bool,
) -> bool {
    exists|n: Node|
        {
            &&& #[trigger] d1.parent_of(n.spec_as_key()) == Some(top)
            &&& node_of(n)
            &&& !d0.live(n.spec_as_key())
            &&& val_of(d1.value_of(n.spec_as_key()))
            &&& d1.children_of(top.0) == d0.children_of(top.0).push(n)
            &&& Document::same_shell(d0, d1)
        }
}

/// What one loader step does to the state, event by event, when it succeeds.
/// `cont` is false exactly at end of input. The loader's whole behaviour
/// reads off this relation: declarations and doctypes after the first and all
/// processing instructions are ignored; whitespace-only text outside any open
/// element is dropped and kept inside one; content collects before the root,
/// under the open elements, or after the root as the stack dictates.
pub open spec fn step_rel(pre: LoadState, ev: XmlEvent, post: LoadState, cont: bool) -> bool {
    match ev {
        XmlEvent::Decl { version, encoding, standalone } => {
            &&& cont
            &&& if pre.doc is None && pre.decl is None {
                &&& post.decl == Some(Declaration { version, encoding, standalone })
                &&& post.doc == pre.doc
                &&& post.saw_doctype == pre.saw_doctype
                &&& post.pre == pre.pre
                &&& post.stack == pre.stack
            } else {
                post == pre
            }
        },
        XmlEvent::DocType(s) => {
            &&& cont
            &&& if pre.doc is None && !pre.saw_doctype {
                &&& post.pre@ == pre.pre@.push(PreItem::DocType(s))
                &&& post.saw_doctype
                &&& post.doc == pre.doc
                &&& post.decl == pre.decl
                &&& post.stack == pre.stack
            } else {
                post == pre
            }
        },
        XmlEvent::Pi => cont && post == pre,
        XmlEvent::Eof => !cont && post == pre,
        XmlEvent::End => {
            &&& cont
            &&& post.stack@ == (if pre.stack@.len() > 0 {
                pre.stack@.drop_last()
            } else {
                pre.stack@
            })
            &&& post.doc == pre.doc
            &&& post.decl == pre.decl
            &&& post.saw_doctype == pre.saw_doctype
            &&& post.pre == pre.pre
        },
        XmlEvent::Text(s) => {
            &&& cont
            &&& match pre.doc {
                None => if is_blank_chars(s@) {
                    post == pre
                } else {
                    &&& post.pre@ == pre.pre@.push(PreItem::Text(s))
                    &&& post.doc == pre.doc
                    &&& post.decl == pre.decl
                    &&& post.saw_doctype == pre.saw_doctype
                    &&& post.stack == pre.stack
                },
                Some(d0) => {
                    &&& same_but_doc(pre, post)
                    &&& post.doc matches Some(d1) && (if pre.stack@.len() > 0 {
                        appended_text(d0, d1, pre.stack@.last(), s@)
                    } else if is_blank_chars(s@) {
                        d1 == d0
                    } else {
                        appended_after(d0, d1, NodeValue::Text(s))
                    })
                },
            }
        },
        XmlEvent::CData(s) => {
            &&& cont
            &&& match pre.doc {
                None => {
                    &&& post.pre@ == pre.pre@.push(PreItem::CData(s))
                    &&& post.doc == pre.doc
                    &&& post.decl == pre.decl
                    &&& post.saw_doctype == pre.saw_doctype
                    &&& post.stack == pre.stack
                },
                Some(d0) => {
                    &&& same_but_doc(pre, post)
                    &&& post.doc matches Some(d1) && (if pre.stack@.len() > 0 {
                        appended_leaf(
                            d0,
                            d1,
                            pre.stack@.last(),
                            |n: Node| n is CDataSection,
                            |v: NodeValue| v matches NodeValue::CData(c) && c@ == s@,
                        )
                    } else {
                        appended_after(d0, d1, NodeValue::CData(s))
                    })
                },
            }
        },
        XmlEvent::Comment(s) => {
            &&& cont
            &&& match pre.doc {
                None => {
                    &&& post.pre@ == pre.pre@.push(PreItem::Comment(s))
                    &&& post.doc == pre.doc
                    &&& post.decl == pre.decl
                    &&& post.saw_doctype == pre.saw_doctype
                    &&& post.stack == pre.stack
                },
                Some(d0) => {
                    &&& same_but_doc(pre, post)
                    &&& post.doc matches Some(d1) && (if pre.stack@.len() > 0 {
                        appended_leaf(
                            d0,
                            d1,
                            pre.stack@.last(),
                            |n: Node| n is Comment,
                            |v: NodeValue| v matches NodeValue::Comment(c) && c@ == s@,
                        )
                    } else {
                        appended_after(d0, d1, NodeValue::Comment(s))
                    })
                },
            }
        },
        XmlEvent::Start { name, attrs } => {
            &&& cont
            &&& spec_valid_qname(name@)
            &&& keys_valid(attrs@)
            &&& match pre.doc {
                None => {
                    &&& post.doc matches Some(d) && built_doc(
                        d,
                        name@,
                        attrs@,
                        pre.decl,
                        pre.pre@,
                    ) && post.stack@ == seq![d.spec_root()]
                    &&& post.decl is None
                    &&& post.pre@ == Seq::<PreItem>::empty()
                    &&& post.saw_doctype == pre.saw_doctype
                },
                Some(d0) => {
                    &&& pre.stack@.len() > 0
                    &&& d0.is_element_key(pre.stack@.last().0)
                    &&& post.doc matches Some(d1) && exists|e: Element|
                        #[trigger] new_element_under(d0, d1, pre.stack@.last(), e, name@, attrs@)
                            && post.stack@ == pre.stack@.push(e)
                    &&& post.decl == pre.decl
                    &&& post.saw_doctype == pre.saw_doctype
                    &&& post.pre == pre.pre
                },
            }
        },
        XmlEvent::Empty { name, attrs } => {
            &&& cont
            &&& spec_valid_qname(name@)
            &&& keys_valid(attrs@)
            &&& match pre.doc {
                None => {
                    &&& post.doc matches Some(d) && built_doc(d, name@, attrs@, pre.decl, pre.pre@)
                    &&& post.stack@ == Seq::<Element>::empty()
                    &&& post.decl is None
                    &&& post.pre@ == Seq::<PreItem>::empty()
                    &&& post.saw_doctype == pre.saw_doctype
                },
                Some(d0) => {
                    &&& pre.stack@.len() > 0
                    &&& d0.is_element_key(pre.stack@.last().0)
                    &&& post.doc matches Some(d1) && exists|e: Element|
                        #[trigger] new_element_under(d0, d1, pre.stack@.last(), e, name@, attrs@)
                    &&& post.stack == pre.stack
                    &&& post.decl == pre.decl
                    &&& post.saw_doctype == pre.saw_doctype
                    &&& post.pre == pre.pre
                },
            }
        },
        XmlEvent::Fail(_) => false,
    }
}

/// Everything but the document is untouched.
pub open spec fn same_but_doc(pre: LoadState, post: LoadState) -> bool {
    &&& post.decl == pre.decl
    &&& post.saw_doctype == pre.saw_doctype
    &&& post.pre == pre.pre
    &&& post.stack == pre.stack
}

/// When one loader step fails: the tokenizer's own error, an invalid
/// qualified name on a tag or attribute, a second top-level element, or a
/// stale handle on the open-element stack (which a run started from the
/// initial state never produces).
pub open spec fn step_fails(pre: LoadState, ev: XmlEvent, e: ReadError) -> bool {
    match ev {
        XmlEvent::Fail(m) => e matches ReadError::Parse(p) && p@ == m@,
        XmlEvent::Start { name, attrs } | XmlEvent::Empty { name, attrs } => {
            ||| (pre.doc is Some && pre.stack@.len() == 0 && (e
                matches ReadError::SupplementaryElement(nm) && nm@ == name@))
            ||| (!(pre.doc is Some && pre.stack@.len() == 0) && !spec_valid_qname(name@) && (e
                matches ReadError::InvalidQName(nm) && nm@ == name@))
            ||| (!(pre.doc is Some && pre.stack@.len() == 0) && spec_valid_qname(name@)
                && !keys_valid(attrs@) && e matches ReadError::InvalidQName(_))
            ||| (pre.doc matches Some(d0) && pre.stack@.len() > 0 && !d0.is_element_key(
                pre.stack@.last().0,
            ) && e matches ReadError::Parse(_))
        },
        XmlEvent::Text(_) | XmlEvent::CData(_) | XmlEvent::Comment(_) => {
            &&& pre.doc matches Some(d0)
            &&& pre.stack@.len() > 0
            &&& !d0.is_element_key(pre.stack@.last().0)
            &&& e matches ReadError::Parse(_)
        },
        _ => false,
    }
}

/// A state the loader can be in: its document, if any, is well-formed, and
/// no element is open before the root exists.
pub open spec fn state_inv(st: LoadState) -> bool {
    &&& st.doc matches Some(d) ==> d.wf()
    &&& st.doc is None ==> st.stack@ == Seq::<Element>::empty()
}

/// The state the loader starts from.
pub open spec fn load_init(st: LoadState) -> bool {
    &&& st.doc is None
    &&& st.decl is None
    &&& !st.saw_doctype
    &&& st.pre@ == Seq::<PreItem>::empty()
    &&& st.stack@ == Seq::<Element>::empty()
}

/// `ts` is the run of the loader over the first `n` events of `input`: it
/// starts in the initial state and every step succeeds and continues.
pub open spec fn load_run(input: Seq<u8>, ts: Seq<LoadState>, n: int) -> bool {
    &&& 0 <= n
    &&& ts.len() == n + 1
    &&& load_init(ts[0])
    &&& forall|i: int|
        0 <= i < n ==> step_rel(ts[i], event_at(input, i), #[trigger] ts[i + 1], true)
}

/// Turns raw attribute pairs into a validated table, in order; rejects the
/// first key that is not a valid qualified name.
fn convert_attrs(raw: &Vec<(String, String)>) -> (r: Result<Vec<(QName, String)>, ReadError>)
    ensures
        r matches Ok(a) ==> table_views(a@, raw@),
        r is Ok <==> keys_valid(raw@),
        r matches Err(e) ==> e is InvalidQName,
{
    let mut out: Vec<(QName, String)> = Vec::new();
    let mut i: usize = 0;
    while i < raw.len()
        invariant
            i <= raw@.len(),
            out@.len() == i,
            forall|j: int|
                0 <= j < i ==> ((#[trigger] out@[j]).0.wf() && out@[j].0@ == raw@[j].0@
                    && out@[j].1@ == raw@[j].1@),
            forall|j: int| 0 <= j < i ==> spec_valid_qname((#[trigger] raw@[j]).0@),
        decreases raw@.len() - i,
    {
        let q = match QName::new(raw[i].0.as_str()) {
            Ok(q) => q,
            Err(_) => {
                return Err(ReadError::InvalidQName(raw[i].0.clone()));
            },
        };
        out.push((q, raw[i].1.clone()));
        i += 1;
    }
    Ok(out)
}

/// Creates the document once its root start-tag is seen: the declaration,
/// the collected leading nodes in order, the root, and its attributes.
fn start_document(
    name: &str,
    attrs: &Vec<(String, String)>,
    decl: Option<Declaration>,
    pre: Vec<PreItem>,
) -> (r: Result<Document, ReadError>)
    ensures
        r is Ok <==> (spec_valid_qname(name@) && keys_valid(attrs@)),
        r matches Ok(d) ==> built_doc(d, name@, attrs@, decl, pre@),
        r matches Err(e) ==> e is InvalidQName,
        !spec_valid_qname(name@) ==> (r matches Err(e) && e matches ReadError::InvalidQName(nm)
            && nm@ == name@),
{
    broadcast use crate::document::group_doc_bridge, crate::arena::lemma_arena_name_of, crate::arena::lemma_arena_children_of;

    let mut d = match Document::new(name) {
        Ok(d) => d,
        Err(_) => {
            return Err(ReadError::InvalidQName(name.to_owned()));
        },
    };
    let table = match convert_attrs(attrs) {
        Ok(t) => t,
        Err(e) => {
            return Err(e);
        },
    };
    let ghost dn = d;
    d.set_declaration(decl);
    let root = d.root();
    let ghost decl0 = decl;
    proof {
        assert(root == dn.spec_root());
        assert(d.live(root.0) == dn.live(root.0));
        assert(d.value_of(root.0) == dn.value_of(root.0));
        crate::document::lemma_value_determines(dn, d, root.0);
        assert(d.attrs_of(root.0) == dn.attrs_of(root.0));
        assert(d.is_element_key(root.0));
        assert(d.name_of(root.0) == dn.name_of(root.0));
        assert(d.children_of(root.0) == dn.children_of(root.0));
    }
    let mut i: usize = 0;
    while i < pre.len()
        invariant
            d.wf(),
            i <= pre@.len(),
            root == d.spec_root(),
            d.is_element_key(root.0),
            d.name_of(root.0)@ == name@,
            d.spec_decl() == decl0,
            d.spec_after() == Seq::<Node>::empty(),
            d.children_of(root.0) == Seq::<Node>::empty(),
            d.attrs_of(root.0) == Seq::<(QName, String)>::empty(),
            d.spec_before().len() == i,
            forall|j: int| 0 <= j < i ==> pre_matches(d, #[trigger] d.spec_before()[j], pre@[j]),
        decreases pre@.len() - i,
    {
        let ghost dprev = d;
        match &pre[i] {
            PreItem::DocType(s) => {
                d.push_floating(NodeValue::DocumentType(s.clone()), false);
            },
            PreItem::Text(s) => {
                d.push_floating(NodeValue::Text(s.clone()), false);
            },
            PreItem::CData(s) => {
                d.push_floating(NodeValue::CData(s.clone()), false);
            },
            PreItem::Comment(s) => {
                d.push_floating(NodeValue::Comment(s.clone()), false);
            },
        }
        proof {
            let nn = d.spec_before().last();
            assert(pre_matches(d, nn, pre@[i as int]));
            assert forall|j: int| 0 <= j < i implies pre_matches(
                d,
                #[trigger] d.spec_before()[j],
                pre@[j],
            ) by {
                assert(d.spec_before()[j] == dprev.spec_before()[j]);
                assert(pre_matches(dprev, dprev.spec_before()[j], pre@[j]));
                let k = dprev.spec_before()[j].spec_as_key();
                assert(dprev.live(k));
                assert(k != nn.spec_as_key()) by {
                    if k == nn.spec_as_key() {
                        assert(!dprev.live(nn.spec_as_key()));
                    }
                }
                assert(Document::unchanged_at(dprev, d, k));
            }
            assert(dprev.live(root.0)) by {
                crate::document::lemma_doc_is_element(dprev, root.0);
                crate::document::lemma_doc_live(dprev, root.0);
                assert(dprev.arena.is_element(root.0));
            }
            assert(root.0 != nn.spec_as_key());
            assert(Document::unchanged_at(dprev, d, root.0));
            crate::document::lemma_value_determines(dprev, d, root.0);
            assert(d.attrs_of(root.0) == dprev.attrs_of(root.0));
            assert(d.is_element_key(root.0));
            assert(d.name_of(root.0) == dprev.name_of(root.0));
            assert(d.children_of(root.0) == dprev.children_of(root.0));
        }
        i += 1;
    }
    proof {
        let tbl0 = Seq::<(QName, String)>::empty();
        assert(table_views(tbl0, attrs@.take(0)));
        assert(d.attrs_of(root.0) == dedup_attrs(tbl0));
    }
    let mut j: usize = 0;
    while j < table.len()
        invariant
            d.wf(),
            j <= table@.len(),
            table_views(table@, attrs@),
            root == d.spec_root(),
            d.is_element_key(root.0),
            d.name_of(root.0)@ == name@,
            d.spec_decl() == decl0,
            d.spec_after() == Seq::<Node>::empty(),
            d.children_of(root.0) == Seq::<Node>::empty(),
            d.spec_before().len() == pre@.len(),
            forall|q: int|
                0 <= q < pre@.len() ==> pre_matches(d, #[trigger] d.spec_before()[q], pre@[q]),
            exists|tbl: Seq<(QName, String)>|
                #[trigger] table_views(tbl, attrs@.take(j as int)) && d.attrs_of(root.0)
                    == dedup_attrs(tbl),
        decreases table@.len() - j,
    {
        let ghost dprev = d;
        proof {
            table@[j as int].0.lemma_wf_valid();
        }
        match root.set_attribute(&mut d, table[j].0.prefixed_name(), table[j].1.as_str()) {
            Ok(_) => {},
            Err(_) => {
                proof {
                    assert(false);
                }
                return Err(ReadError::Parse(String::new()));
            },
        }
        proof {
            crate::document::lemma_doc_is_element(dprev, root.0);
            crate::document::lemma_doc_live(dprev, root.0);
            crate::document::lemma_doc_is_element(d, root.0);
            crate::document::lemma_doc_live(d, root.0);
            assert(dprev.arena.is_element(root.0));
            assert(d.arena.is_element(root.0));
            assert(d.live(root.0) == dprev.live(root.0));
            crate::document::lemma_value_determines(dprev, d, root.0);
            let tbl0 = choose|tbl: Seq<(QName, String)>|
                #[trigger] table_views(tbl, attrs@.take(j as int)) && dprev.attrs_of(root.0)
                    == dedup_attrs(tbl);
            let (q2, v2) = choose|q2: QName, v2: String|
                q2.wf() && q2@ == table@[j as int].0@ && v2@ == table@[j as int].1@ && d.attrs_of(
                    root.0,
                ) == #[trigger] crate::attrs::attr_upsert(dprev.attrs_of(root.0), q2, v2);
            let tbl1 = tbl0.push((q2, v2));
            assert(table_views(tbl1, attrs@.take(j + 1))) by {
                assert(attrs@.take(j + 1)[j as int] == attrs@[j as int]);
                assert(forall|i2: int|
                    0 <= i2 < j ==> attrs@.take(j + 1)[i2] == #[trigger] attrs@.take(
                        j as int,
                    )[i2]);
            }
            assert(tbl1.drop_last() =~= tbl0);
            assert(d.attrs_of(root.0) == dedup_attrs(tbl1));
            assert forall|q: int| 0 <= q < pre@.len() implies pre_matches(
                d,
                #[trigger] d.spec_before()[q],
                pre@[q],
            ) by {
                assert(d.spec_before()[q] == dprev.spec_before()[q]);
                assert(pre_matches(dprev, dprev.spec_before()[q], pre@[q]));
                let k = dprev.spec_before()[q].spec_as_key();
                assert(k != root.0) by {
                    if k == root.0 {
                        crate::document::lemma_doc_is_element(dprev, root.0);
                        crate::document::lemma_doc_value(dprev, root.0);
                        assert(dprev.arena.is_element(root.0));
                        assert(dprev.value_of(root.0) == dprev.arena.value_of(root.0));
                        assert(dprev.value_of(root.0) is Element);
                    }
                }
                assert(Document::unchanged_at(dprev, d, k));
            }
        }
        j += 1;
    }
    proof {
        assert(attrs@.take(attrs@.len() as int) =~= attrs@);
        assert(built_doc(d, name@, attrs@, decl0, pre@));
    }
    Ok(d)
}

/// One loader step: consumes one event and updates the state, exactly as
/// `step_rel` and `step_fails` say. Returns whether to continue.
#[verifier::rlimit(100)]
#[verifier::spinoff_prover]
fn load_step(st: &mut LoadState, ev: XmlEvent) -> (r: Result<bool, ReadError>)
    requires
        state_inv(*old(st)),
    ensures
        state_inv(*final(st)),
        match r {
            Ok(cont) => step_rel(*old(st), ev, *final(st), cont),
            Err(e) => step_fails(*old(st), ev, e),
        },
{
    broadcast use crate::document::group_doc_bridge;

    match ev {
        XmlEvent::Fail(m) => Err(ReadError::Parse(m)),
        XmlEvent::Eof => Ok(false),
        XmlEvent::Pi => Ok(true),
        XmlEvent::End => {
            if st.stack.len() > 0 {
                st.stack.pop();
            }
            Ok(true)
        },
        XmlEvent::Decl { version, encoding, standalone } => {
            if st.doc.is_none() && st.decl.is_none() {
                st.decl = Some(Declaration { version, encoding, standalone });
            }
            Ok(true)
        },
        XmlEvent::DocType(s) => {
            if st.doc.is_none() && !st.saw_doctype {
                st.saw_doctype = true;
                st.pre.push(PreItem::DocType(s));
            }
            Ok(true)
        },
        XmlEvent::Text(s) => {
            match &mut st.doc {
                Some(d) => {
                    if st.stack.len() > 0 {
                        let top = st.stack[st.stack.len() - 1];
                        proof {
                            assert(top == st.stack@.last());
                        }
                        match top.append_text(d, s.as_str()) {
                            Ok(t) => {
                                proof {
                                    assert(d.parent_of(t.0) == Some(top));
                                }
                                Ok(true)
                            },
                            Err(e) => Err(ReadError::Parse(String::new())),
                        }
                    } else {
                        if !is_blank(s.as_str()) {
                            let ghost d0 = *d;
                            let n = d.push_floating(NodeValue::Text(s), true);
                            proof {
                                assert(d.value_of(n.spec_as_key()) matches NodeValue::Text(_));
                            }
                        }
                        Ok(true)
                    }
                },
                None => {
                    if !is_blank(s.as_str()) {
                        st.pre.push(PreItem::Text(s));
                    }
                    Ok(true)
                },
            }
        },
        XmlEvent::CData(s) => {
            match &mut st.doc {
                Some(d) => {
                    if st.stack.len() > 0 {
                        let top = st.stack[st.stack.len() - 1];
                        proof {
                            assert(top == st.stack@.last());
                        }
                        match top.append_cdata(d, s.as_str()) {
                            Ok(t) => {
                                proof {
                                    assert(d.parent_of(t.0) == Some(top));
                                    assert(appended_leaf(
                                        old(st).doc.unwrap(),
                                        *d,
                                        top,
                                        |n: Node| n is CDataSection,
                                        |v: NodeValue| v matches NodeValue::CData(c) && c@ == s@,
                                    )) by {
                                        let n = Node::CDataSection(t);
                                        assert(d.parent_of(n.spec_as_key()) == Some(top));
                                        assert((|v: NodeValue| v matches NodeValue::CData(c) && c@
                                            == s@)(d.value_of(n.spec_as_key())));
                                        assert((|n2: Node| n2 is CDataSection)(n));
                                    }
                                }
                                Ok(true)
                            },
                            Err(e) => Err(ReadError::Parse(String::new())),
                        }
                    } else {
                        d.push_floating(NodeValue::CData(s), true);
                        Ok(true)
                    }
                },
                None => {
                    st.pre.push(PreItem::CData(s));
                    Ok(true)
                },
            }
        },
        XmlEvent::Comment(s) => {
            match &mut st.doc {
                Some(d) => {
                    if st.stack.len() > 0 {
                        let top = st.stack[st.stack.len() - 1];
                        proof {
                            assert(top == st.stack@.last());
                        }
                        match top.append_comment(d, s.as_str()) {
                            Ok(t) => {
                                proof {
                                    assert(appended_leaf(
                                        old(st).doc.unwrap(),
                                        *d,
                                        top,
                                        |n: Node| n is Comment,
                                        |v: NodeValue| v matches NodeValue::Comment(c) && c@ == s@,
                                    )) by {
                                        let n = Node::Comment(t);
                                        assert(d.parent_of(n.spec_as_key()) == Some(top));
                                        assert((|v: NodeValue| v matches NodeValue::Comment(c) && c@
                                            == s@)(d.value_of(n.spec_as_key())));
                                        assert((|n2: Node| n2 is Comment)(n));
                                    }
                                }
                                Ok(true)
                            },
                            Err(e) => Err(ReadError::Parse(String::new())),
                        }
                    } else {
                        d.push_floating(NodeValue::Comment(s), true);
                        Ok(true)
                    }
                },
                None => {
                    st.pre.push(PreItem::Comment(s));
                    Ok(true)
                },
            }
        },
        XmlEvent::Start { name, attrs } => {
            if st.doc.is_none() {
                let mut p: Vec<PreItem> = Vec::new();
                core::mem::swap(&mut p, &mut st.pre);
                let mut dl: Option<Declaration> = None;
                core::mem::swap(&mut dl, &mut st.decl);
                let ghost p0 = p@;
                let ghost dl0 = dl;
                let d = match start_document(name.as_str(), &attrs, dl, p) {
                    Ok(d) => d,
                    Err(e) => {
                        return Err(e);
                    },
                };
                let root = d.root();
                st.doc = Some(d);
                st.stack.push(root);
                proof {
                    assert(st.stack@ =~= seq![root]);
                }
                return Ok(true);
            }
            match &mut st.doc {
                Some(d) => {
                    if st.stack.len() == 0 {
                        return Err(ReadError::SupplementaryElement(name));
                    }
                    let top = st.stack[st.stack.len() - 1];
                    proof {
                        assert(top == st.stack@.last());
                    }
                    let q = match QName::new(name.as_str()) {
                        Ok(q) => q,
                        Err(_) => {
                            return Err(ReadError::InvalidQName(name));
                        },
                    };
                    let table = match convert_attrs(&attrs) {
                        Ok(a) => a,
                        Err(e) => {
                            return Err(e);
                        },
                    };
                    let ghost tblg = table@;
                    let el = NewElement { name: q, attrs: table };
                    match top.append_new_element(d, el) {
                        Ok(child) => {
                            st.stack.push(child);
                            proof {
                                assert(new_element_under(
                                    old(st).doc.unwrap(),
                                    *d,
                                    top,
                                    child,
                                    name@,
                                    attrs@,
                                )) by {
                                    assert(table_views(tblg, attrs@));
                                    assert(d.attrs_of(child.0) == dedup_attrs(tblg));
                                }
                            }
                            Ok(true)
                        },
                        Err(_) => Err(ReadError::Parse(String::new())),
                    }
                },
                None => Err(ReadError::Parse(String::new())),
            }
        },
        XmlEvent::Empty { name, attrs } => {
            if st.doc.is_none() {
                let mut p: Vec<PreItem> = Vec::new();
                core::mem::swap(&mut p, &mut st.pre);
                let mut dl: Option<Declaration> = None;
                core::mem::swap(&mut dl, &mut st.decl);
                let d = match start_document(name.as_str(), &attrs, dl, p) {
                    Ok(d) => d,
                    Err(e) => {
                        return Err(e);
                    },
                };
                st.doc = Some(d);
                return Ok(true);
            }
            match &mut st.doc {
                Some(d) => {
                    if st.stack.len() == 0 {
                        return Err(ReadError::SupplementaryElement(name));
                    }
                    let top = st.stack[st.stack.len() - 1];
                    proof {
                        assert(top == st.stack@.last());
                    }
                    let q = match QName::new(name.as_str()) {
                        Ok(q) => q,
                        Err(_) => {
                            return Err(ReadError::InvalidQName(name));
                        },
                    };
                    let table = match convert_attrs(&attrs) {
                        Ok(a) => a,
                        Err(e) => {
                            return Err(e);
                        },
                    };
                    let ghost tblg = table@;
                    let el = NewElement { name: q, attrs: table };
                    match top.append_new_element(d, el) {
                        Ok(child) => {
                            proof {
                                assert(new_element_under(
                                    old(st).doc.unwrap(),
                                    *d,
                                    top,
                                    child,
                                    name@,
                                    attrs@,
                                )) by {
                                    assert(table_views(tblg, attrs@));
                                    assert(d.attrs_of(child.0) == dedup_attrs(tblg));
                                }
                            }
                            Ok(true)
                        },
                        Err(_) => Err(ReadError::Parse(String::new())),
                    }
                },
                None => Err(ReadError::Parse(String::new())),
            }
        },
    }
}

impl Document {
    /// Parses a document from raw bytes: the outcome of folding the loader
    /// step over the input's event stream. Malformed input, an invalid name,
    /// input without a root element, and a second top-level element are all
    /// reported as errors, never a crash.
    pub fn from_bytes(input: &[u8]) -> (r: Result<Document, ReadError>)
        ensures
            r matches Ok(d) ==> d.wf(),
            r matches Ok(d) ==> exists|ts: Seq<LoadState>, n: int|
                {
                    &&& #[trigger] load_run(input@, ts, n)
                    &&& step_rel(ts[n], event_at(input@, n), ts[n], false)
                    &&& ts[n].doc == Some(d)
                },
            r matches Err(e) ==> exists|ts: Seq<LoadState>, n: int|
                {
                    &&& #[trigger] load_run(input@, ts, n)
                    &&& {
                        ||| step_fails(ts[n], event_at(input@, n), e)
                        ||| (step_rel(ts[n], event_at(input@, n), ts[n], false) && ts[n].doc
                            is None && e matches ReadError::Parse(_))
                        ||| (n >= usize::MAX && e matches ReadError::Parse(_))
                    }
                },
    {
        let mut t = open_tokenizer(input);
        let mut st = LoadState {
            doc: None,
            decl: None,
            saw_doctype: false,
            pre: Vec::new(),
            stack: Vec::new(),
        };
        let ghost mut ts: Seq<LoadState> = seq![st];
        let mut steps: usize = 0;
        loop
            invariant_except_break
                t.pos == steps,
            invariant
                state_inv(st),
                t.input@ == input@,
                ts.len() == steps + 1,
                load_run(input@, ts, steps as int),
                ts[steps as int] == st,
            ensures
                load_run(input@, ts, steps as int),
                ts[steps as int] == st,
                state_inv(st),
                step_rel(st, event_at(input@, steps as int), st, false),
            decreases usize::MAX - steps,
        {
            if steps == usize::MAX {
                return Err(ReadError::Parse("input too long".to_owned()));
            }
            let ev = pull(&mut t);
            let ghost pre_st = st;
            match load_step(&mut st, ev) {
                Ok(true) => {
                    proof {
                        ts = ts.push(st);
                        assert(load_run(input@, ts, steps + 1)) by {
                            assert(forall|i: int|
                                0 <= i < steps ==> step_rel(
                                    ts[i],
                                    event_at(input@, i),
                                    #[trigger] ts[i + 1],
                                    true,
                                ));
                            assert(ts[steps as int] == pre_st);
                            assert(ts[steps + 1] == st);
                        }
                    }
                },
                Ok(false) => {
                    proof {
                        assert(step_rel(pre_st, ev, st, false));
                        assert(st == pre_st);
                        assert(step_rel(st, event_at(input@, steps as int), st, false));
                    }
                    break ;
                },
                Err(e) => {
                    proof {
                        assert(step_fails(pre_st, event_at(input@, steps as int), e));
                    }
                    return Err(e);
                },
            }
            steps += 1;
        }
        let ghost n = steps as int;
        match st.doc {
            Some(d) => {
                proof {
                    assert(ts[n].doc == Some(d));
                    assert(step_rel(ts[n], event_at(input@, n), ts[n], false));
                }
                Ok(d)
            },
            None => Err(ReadError::Parse("no root element".to_owned())),
        }
    }

    /// Parses a document from a string; the same fold over the string's
    /// bytes.
    pub fn from_str(input: &str) -> (r: Result<Document, ReadError>)
        ensures
            r matches Ok(d) ==> d.wf(),
            r matches Ok(d) ==> exists|ts: Seq<LoadState>, n: int|
                {
                    &&& #[trigger] load_run(vstd::utf8::encode_utf8(input@), ts, n)
                    &&& step_rel(ts[n], event_at(vstd::utf8::encode_utf8(input@), n), ts[n], false)
                    &&& ts[n].doc == Some(d)
                },
    {
        let bytes = input.as_bytes();
        proof {
            assert(bytes@ =~= vstd::utf8::encode_utf8(input@));
        }
        Document::from_bytes(bytes)
    }
}

} // verus!
