//! The serializer: renders a document or a subtree to text under a
//! configuration, escaping entities and, in pretty mode, indenting and
//! wrapping long attribute lists.
//!
//! Every rendering function appends to a character buffer and is specified
//! against a spec function of the same shape. Traversal carries a fuel
//! budget of one more than the store's slot count, which no tree of the
//! store can exhaust; the spec functions spend the same fuel, so the
//! executable output equals the specified text on every input.

use vstd::prelude::*;

use crate::document::Declaration;
use crate::document::Document;
use crate::element::Element;
use crate::key::DocKey;
use crate::key::Node;
use crate::qname::QName;
use vstd::string::StringSliceAdditionalSpecFns;
use crate::text::is_ws_char;
use crate::text::push_str_chars;
use crate::value::NodeValue;

verus! {

broadcast use crate::document::group_doc_bridge;

/// How characters outside the plain set are written: named entities for the
/// five special characters, or numeric hex references for everything.
#[derive(Debug, Clone, Copy, PartialEq, Eq, Structural)]
pub enum EntityMode {
    Standard,
    Hex,
}

impl Default for EntityMode {
    fn default() -> (r: Self)
        ensures
            r == EntityMode::Standard,
    {
        EntityMode::Standard
    }
}

/// Serialization options.
#[derive(Debug, Clone, Copy)]
pub struct Config {
    pub is_pretty: bool,
    pub indent: usize,
    pub max_line_length: usize,
    pub entity_mode: EntityMode,
    pub indent_text_nodes: bool,
}

impl Config {
    /// The pretty-printing defaults: two-space indent, lines wrapped past
    /// 120 columns, named entities, text nodes on their own lines.
    pub fn default_pretty() -> (r: Config)
        ensures
            r.is_pretty,
            r.indent == 2,
            r.max_line_length == 120,
            r.entity_mode == EntityMode::Standard,
            r.indent_text_nodes,
    {
        Config {
            is_pretty: true,
            indent: 2,
            max_line_length: 120,
            entity_mode: EntityMode::Standard,
            indent_text_nodes: true,
        }
    }

    /// The compact defaults: single-line output that reproduces an untouched
    /// parsed document byte for byte.
    pub fn default_compact() -> (r: Config)
        ensures
            !r.is_pretty,
            r.indent == 0,
            r.max_line_length == 0,
            r.entity_mode == EntityMode::Standard,
            !r.indent_text_nodes,
    {
        Config {
            is_pretty: false,
            indent: 0,
            max_line_length: 0,
            entity_mode: EntityMode::Standard,
            indent_text_nodes: false,
        }
    }
}

impl Default for Config {
    fn default() -> (r: Self)
        ensures
            !r.is_pretty,
            r.indent == 0,
            r.max_line_length == 0,
            r.entity_mode == EntityMode::Standard,
            !r.indent_text_nodes,
    {
        Config::default_compact()
    }
}

/// Whether the character's Unicode general category is a separator
/// category. Relied on from `ucd_flags`.
pub uninterp spec fn ucd_is_separator(c: char) -> bool;

/// Whether the character's Unicode general category is an "other"
/// category (control, format, surrogate, private use, unassigned). Relied
/// on from `ucd_flags`.
pub uninterp spec fn ucd_is_other(c: char) -> bool;

/// Relies on unic_ucd_category::GeneralCategory::of and its is_separator and
/// is_other predicates: a character's general category is a function of the
/// character alone, from the bundled Unicode character database.
#[verifier::external_body]
fn ucd_flags(c: char) -> (r: (bool, bool))
    ensures
        r.0 == ucd_is_separator(c),
        r.1 == ucd_is_other(c),
{
    let cat = unic_ucd_category::GeneralCategory::of(c);
    (cat.is_separator(), cat.is_other())
}

pub open spec fn is_ascii_control(c: char) -> bool {
    (c as u32) < 0x20 || c as u32 == 0x7F
}

pub open spec fn is_ascii_ws(c: char) -> bool {
    c == ' ' || c == '\t' || c == '\n' || (c as u32 == 0xC) || c == '\r'
}

pub open spec fn hex_digit(n: int) -> char {
    if n == 0 {
        '0'
    } else if n == 1 {
        '1'
    } else if n == 2 {
        '2'
    } else if n == 3 {
        '3'
    } else if n == 4 {
        '4'
    } else if n == 5 {
        '5'
    } else if n == 6 {
        '6'
    } else if n == 7 {
        '7'
    } else if n == 8 {
        '8'
    } else if n == 9 {
        '9'
    } else if n == 10 {
        'A'
    } else if n == 11 {
        'B'
    } else if n == 12 {
        'C'
    } else if n == 13 {
        'D'
    } else if n == 14 {
        'E'
    } else {
        'F'
    }
}

pub open spec fn hex_chars(n: int) -> Seq<char>
    decreases n,
{
    if n < 16 {
        seq![hex_digit(n)]
    } else {
        hex_chars(n / 16).push(hex_digit(n % 16))
    }
}

/// `&#xNNNN;` with at least four uppercase hex digits.
pub open spec fn char_ref(c: char) -> Seq<char> {
    let digits = hex_chars(c as u32 as int);
    let padded = if digits.len() >= 4 {
        digits
    } else {
        Seq::new((4 - digits.len()) as nat, |i: int| '0') + digits
    };
    seq!['&', '#', 'x'] + padded + seq![';']
}

/// What one character becomes in serialized text. `allow_separators` is set
/// in text content, where whitespace passes through; `is_text` distinguishes
/// text content from attribute values, where quotes must be escaped.
pub open spec fn escape_char(c: char, mode: EntityMode, allow_separators: bool, is_text: bool) -> Seq<char> {
    if mode == EntityMode::Standard && c == '&' {
        seq!['&', 'a', 'm', 'p', ';']
    } else if mode == EntityMode::Standard && c == '\'' && !is_text {
        seq!['&', 'a', 'p', 'o', 's', ';']
    } else if mode == EntityMode::Standard && c == '"' && !is_text {
        seq!['&', 'q', 'u', 'o', 't', ';']
    } else if mode == EntityMode::Standard && c == '<' {
        seq!['&', 'l', 't', ';']
    } else if mode == EntityMode::Standard && c == '>' {
        seq!['&', 'g', 't', ';']
    } else if mode == EntityMode::Hex && (c == '&' || c == '\'' || c == '"' || c == '<' || c
        == '>') {
        char_ref(c)
    } else if !is_ascii_ws(c) && is_ascii_control(c) {
        char_ref(c)
    } else {
        let is_ws = c != '\u{00a0}' && (c == ' ' || (allow_separators && (is_ascii_ws(c)
            || ucd_is_separator(c))));
        let is_printable = !(ucd_is_separator(c) || ucd_is_other(c));
        if is_ws || is_printable {
            seq![c]
        } else {
            char_ref(c)
        }
    }
}

/// A character that serializes as itself in every context.
pub open spec fn is_plain_char(c: char) -> bool {
    &&& c != '&' && c != '\'' && c != '"' && c != '<' && c != '>'
    &&& !is_ascii_control(c)
    &&& !ucd_is_separator(c)
    &&& !ucd_is_other(c)
}

/// The serialized form of a string: each character escaped in place.
pub open spec fn escape_text(s: Seq<char>, mode: EntityMode, allow_separators: bool, is_text: bool) -> Seq<char>
    decreases s.len(),
{
    if s.len() == 0 {
        Seq::empty()
    } else {
        escape_char(s[0], mode, allow_separators, is_text) + escape_text(
            s.drop_first(),
            mode,
            allow_separators,
            is_text,
        )
    }
}

/// A string of plain characters serializes as itself, in any mode and any
/// context.
pub proof fn lemma_escape_plain_identity(
    s: Seq<char>,
    mode: EntityMode,
    allow_separators: bool,
    is_text: bool,
)
    requires
        forall|i: int| 0 <= i < s.len() ==> is_plain_char(#[trigger] s[i]),
    ensures
        escape_text(s, mode, allow_separators, is_text) == s,
    decreases s.len(),
{
    if s.len() > 0 {
        assert(escape_char(s[0], mode, allow_separators, is_text) == seq![s[0]]);
        assert(forall|i: int|
            0 <= i < s.drop_first().len() ==> is_plain_char(#[trigger] s.drop_first()[i]));
        lemma_escape_plain_identity(s.drop_first(), mode, allow_separators, is_text);
        assert(escape_text(s, mode, allow_separators, is_text) =~= s);
    } else {
        assert(escape_text(s, mode, allow_separators, is_text) =~= s);
    }
}

fn hex_digit_exec(n: u32) -> (r: char)
    requires
        n < 16,
    ensures
        r == hex_digit(n as int),
{
    if n == 0 {
        '0'
    } else if n == 1 {
        '1'
    } else if n == 2 {
        '2'
    } else if n == 3 {
        '3'
    } else if n == 4 {
        '4'
    } else if n == 5 {
        '5'
    } else if n == 6 {
        '6'
    } else if n == 7 {
        '7'
    } else if n == 8 {
        '8'
    } else if n == 9 {
        '9'
    } else if n == 10 {
        'A'
    } else if n == 11 {
        'B'
    } else if n == 12 {
        'C'
    } else if n == 13 {
        'D'
    } else if n == 14 {
        'E'
    } else {
        'F'
    }
}

fn push_hex(out: &mut Vec<char>, n: u32)
    ensures
        final(out)@ == old(out)@ + hex_chars(n as int),
    decreases n,
{
    if n < 16 {
        out.push(hex_digit_exec(n));
    } else {
        push_hex(out, n / 16);
        out.push(hex_digit_exec(n % 16));
    }
}

fn push_char_ref(out: &mut Vec<char>, c: char)
    ensures
        final(out)@ == old(out)@ + char_ref(c),
{
    out.push('&');
    out.push('#');
    out.push('x');
    let ghost mid = out@;
    let n = c as u32;
    let digits = {
        let mut tmp: Vec<char> = Vec::new();
        push_hex(&mut tmp, n);
        tmp
    };
    let mut pad: usize = 0;
    if digits.len() < 4 {
        pad = 4 - digits.len();
    }
    let mut i: usize = 0;
    while i < pad
        invariant
            pad < 4,
            i <= pad,
            out@ == mid + Seq::new(i as nat, |j: int| '0'),
        decreases pad - i,
    {
        out.push('0');
        proof {
            assert(Seq::new((i + 1) as nat, |j: int| '0') =~= Seq::new(i as nat, |j: int| '0').push(
                '0',
            ));
        }
        i += 1;
    }
    let mut j: usize = 0;
    while j < digits.len()
        invariant
            j <= digits@.len(),
            digits@ == hex_chars(c as u32 as int),
            out@ == mid + Seq::new(pad as nat, |q: int| '0') + digits@.take(j as int),
        decreases digits@.len() - j,
    {
        out.push(digits[j]);
        proof {
            assert(digits@.take(j + 1) =~= digits@.take(j as int).push(digits@[j as int]));
        }
        j += 1;
    }
    out.push(';');
    proof {
        assert(digits@.take(digits@.len() as int) =~= digits@);
        if hex_chars(c as u32 as int).len() >= 4 {
            assert(pad == 0);
            assert(Seq::new(0nat, |q: int| '0') =~= Seq::<char>::empty());
        }
        assert(out@ =~= old(out)@ + char_ref(c));
    }
}

fn is_ascii_ws_exec(c: char) -> (r: bool)
    ensures
        r == is_ascii_ws(c),
{
    c == ' ' || c == '\t' || c == '\n' || (c as u32 == 0xC) || c == '\r'
}

fn is_ascii_control_exec(c: char) -> (r: bool)
    ensures
        r == is_ascii_control(c),
{
    (c as u32) < 0x20 || c as u32 == 0x7F
}

fn push_escaped_char(
    out: &mut Vec<char>,
    c: char,
    mode: EntityMode,
    allow_separators: bool,
    is_text: bool,
)
    ensures
        final(out)@ == old(out)@ + escape_char(c, mode, allow_separators, is_text),
{
    if mode == EntityMode::Standard && c == '&' {
        push_str_chars(out, "&amp;");
        proof {
            reveal_strlit("&amp;");
            assert("&amp;"@ =~= seq!['&', 'a', 'm', 'p', ';']);
        }
    } else if mode == EntityMode::Standard && c == '\'' && !is_text {
        push_str_chars(out, "&apos;");
        proof {
            reveal_strlit("&apos;");
            assert("&apos;"@ =~= seq!['&', 'a', 'p', 'o', 's', ';']);
        }
    } else if mode == EntityMode::Standard && c == '"' && !is_text {
        push_str_chars(out, "&quot;");
        proof {
            reveal_strlit("&quot;");
            assert("&quot;"@ =~= seq!['&', 'q', 'u', 'o', 't', ';']);
        }
    } else if mode == EntityMode::Standard && c == '<' {
        push_str_chars(out, "&lt;");
        proof {
            reveal_strlit("&lt;");
            assert("&lt;"@ =~= seq!['&', 'l', 't', ';']);
        }
    } else if mode == EntityMode::Standard && c == '>' {
        push_str_chars(out, "&gt;");
        proof {
            reveal_strlit("&gt;");
            assert("&gt;"@ =~= seq!['&', 'g', 't', ';']);
        }
    } else if mode == EntityMode::Hex && (c == '&' || c == '\'' || c == '"' || c == '<' || c
        == '>') {
        push_char_ref(out, c);
    } else if !is_ascii_ws_exec(c) && is_ascii_control_exec(c) {
        push_char_ref(out, c);
    } else {
        let (sep, other) = ucd_flags(c);
        let is_ws = c != '\u{00a0}' && (c == ' ' || (allow_separators && (is_ascii_ws_exec(c)
            || sep)));
        let is_printable = !(sep || other);
        if is_ws || is_printable {
            out.push(c);
        } else {
            push_char_ref(out, c);
        }
    }
}

/// Appends the serialized form of `s`.
pub(crate) fn push_escaped(
    out: &mut Vec<char>,
    s: &str,
    mode: EntityMode,
    allow_separators: bool,
    is_text: bool,
)
    ensures
        final(out)@ == old(out)@ + escape_text(s@, mode, allow_separators, is_text),
{
    let n = s.unicode_len();
    let mut i: usize = 0;
    while i < n
        invariant
            n == s@.len(),
            i <= n,
            out@ == old(out)@ + escape_text(s@.take(i as int), mode, allow_separators, is_text),
        decreases n - i,
    {
        push_escaped_char(out, s.get_char(i), mode, allow_separators, is_text);
        proof {
            lemma_escape_text_snoc(s@.take(i + 1), mode, allow_separators, is_text);
            assert(s@.take(i + 1).drop_last() =~= s@.take(i as int));
            assert(s@.take(i + 1).last() == s@[i as int]);
        }
        i += 1;
    }
    proof {
        assert(s@.take(n as int) =~= s@);
    }
}

/// Escaping distributes over appending one character at the end.
proof fn lemma_escape_text_snoc(s: Seq<char>, mode: EntityMode, allow_separators: bool, is_text: bool)
    requires
        s.len() > 0,
    ensures
        escape_text(s, mode, allow_separators, is_text) == escape_text(
            s.drop_last(),
            mode,
            allow_separators,
            is_text,
        ) + escape_char(s.last(), mode, allow_separators, is_text),
    decreases s.len(),
{
    if s.len() == 1 {
        assert(s.drop_first() =~= Seq::<char>::empty());
        assert(s.drop_last() =~= Seq::<char>::empty());
        assert(escape_text(s, mode, allow_separators, is_text) =~= escape_text(
            s.drop_last(),
            mode,
            allow_separators,
            is_text,
        ) + escape_char(s.last(), mode, allow_separators, is_text));
    } else {
        lemma_escape_text_snoc(s.drop_first(), mode, allow_separators, is_text);
        assert(s.drop_first().drop_last() =~= s.drop_last().drop_first());
        assert(s.drop_first().last() == s.last());
        assert(s.drop_last()[0] == s[0]);
        assert(s.drop_last().len() > 0);
        assert(escape_text(s, mode, allow_separators, is_text) =~= escape_text(
            s.drop_last(),
            mode,
            allow_separators,
            is_text,
        ) + escape_char(s.last(), mode, allow_separators, is_text));
    }
}

/// `n` spaces.
pub open spec fn spaces(n: int) -> Seq<char> {
    Seq::new(n as nat, |i: int| ' ')
}

pub(crate) fn push_spaces(out: &mut Vec<char>, n: usize)
    ensures
        final(out)@ == old(out)@ + spaces(n as int),
{
    let mut i: usize = 0;
    while i < n
        invariant
            i <= n,
            out@ == old(out)@ + spaces(i as int),
        decreases n - i,
    {
        out.push(' ');
        proof {
            assert(spaces(i + 1) =~= spaces(i as int).push(' '));
        }
        i += 1;
    }
}

/// The byte length of the UTF-8 form of the characters, as the machine
/// measures it.
pub open spec fn byte_len(s: Seq<char>) -> int {
    (vstd::utf8::encode_utf8(s).len() as usize) as int
}

/// The projected single-line length of a start tag: the name, the brackets,
/// and each attribute's `name="value"` overhead of four characters.
pub open spec fn attrs_line_len(name: Seq<char>, attrs: Seq<(QName, String)>, upto: int) -> int
    decreases upto,
{
    if upto <= 0 {
        byte_len(name) + 2
    } else {
        attrs_line_len(name, attrs, upto - 1) + byte_len(attrs[upto - 1].0@) + byte_len(
            attrs[upto - 1].1@,
        ) + 4
    }
}

proof fn lemma_attrs_line_len_mono(name: Seq<char>, attrs: Seq<(QName, String)>, i: int, j: int)
    requires
        0 <= i <= j,
    ensures
        attrs_line_len(name, attrs, i) <= attrs_line_len(name, attrs, j),
    decreases j - i,
{
    if i < j {
        lemma_attrs_line_len_mono(name, attrs, i, j - 1);
    }
}

/// Whether a start tag's attributes wrap onto their own lines.
pub open spec fn attrs_wrap(
    name: Seq<char>,
    attrs: Seq<(QName, String)>,
    config: Config,
    pretty: bool,
    upto: int,
) -> bool {
    pretty && attrs_line_len(name, attrs, upto) > config.max_line_length
}

/// One attribute as `name="value"`.
pub open spec fn attr_text(a: (QName, String), config: Config) -> Seq<char> {
    a.0@ + seq!['=', '"'] + escape_text(a.1@, config.entity_mode, false, false) + seq!['"']
}

/// The separator before the attribute at `i` (the first attribute follows
/// the tag name and gets none here), then the attribute itself.
pub open spec fn attrs_text_from(
    name: Seq<char>,
    attrs: Seq<(QName, String)>,
    config: Config,
    pretty: bool,
    indent: int,
    i: int,
) -> Seq<char>
    decreases attrs.len() - i,
{
    if i < 0 || i >= attrs.len() {
        Seq::empty()
    } else {
        let sep: Seq<char> = if i == 0 {
            Seq::empty()
        } else if attrs_wrap(name, attrs, config, pretty, attrs.len() as int) {
            seq!['\n'] + spaces(indent + config.indent)
        } else {
            seq![' ']
        };
        sep + attr_text(attrs[i], config) + attrs_text_from(name, attrs, config, pretty, indent, i + 1)
    }
}

/// The newline emitted in pretty mode.
pub open spec fn nl(pretty: bool) -> Seq<char> {
    if pretty {
        seq!['\n']
    } else {
        Seq::empty()
    }
}

/// The separator between the tag name and the first attribute: a wrap puts
/// the attribute on its own deeper-indented line, judged from the name and
/// the first attribute alone.
pub open spec fn first_attr_sep(
    name: Seq<char>,
    attrs: Seq<(QName, String)>,
    config: Config,
    pretty: bool,
    indent: int,
) -> Seq<char> {
    if attrs_wrap(name, attrs, config, pretty, 1) {
        seq!['\n'] + spaces(indent + config.indent)
    } else {
        seq![' ']
    }
}

/// A start tag up to, but not including, its closing bracket.
pub open spec fn open_tag_text(
    name: Seq<char>,
    attrs: Seq<(QName, String)>,
    config: Config,
    pretty: bool,
    indent: int,
) -> Seq<char> {
    let head = spaces(indent) + seq!['<'] + name;
    if attrs.len() > 0 {
        head + first_attr_sep(name, attrs, config, pretty, indent) + attrs_text_from(
            name,
            attrs,
            config,
            pretty,
            indent,
            0,
        )
    } else {
        head
    }
}

/// Whether any child is a text or CDATA node, which in pretty mode keeps the
/// subtree flush against its tags unless text nodes are indented too.
pub open spec fn spec_has_text(doc: Document, kids: Seq<Node>) -> bool {
    exists|i: int|
        0 <= i < kids.len() && ((#[trigger] kids[i]) is Text || kids[i] is CDataSection)
}

/// An element: a self-closing tag without children, or an open tag, the
/// children, and a close tag.
pub open spec fn ser_element(
    doc: Document,
    k: DocKey,
    config: Config,
    pretty: bool,
    indent: int,
    fuel: nat,
) -> Seq<char>
    decreases fuel, 0int, 0int,
{
    if fuel == 0 {
        Seq::empty()
    } else {
        let name = doc.name_of(k)@;
        let attrs = doc.attrs_of(k);
        let kids = doc.children_of(k);
        if kids.len() == 0 {
            if attrs.len() > 0 {
                open_tag_text(name, attrs, config, pretty, indent) + seq![' ', '/', '>'] + nl(
                    pretty,
                )
            } else {
                spaces(indent) + seq!['<'] + name + seq!['/', '>'] + nl(pretty)
            }
        } else {
            let has_text = spec_has_text(doc, kids);
            let open = open_tag_text(name, attrs, config, pretty, indent) + seq!['>'] + (if (
            config.indent_text_nodes || !has_text) && pretty {
                seq!['\n']
            } else {
                Seq::<char>::empty()
            });
            let child_pretty = if has_text && !config.indent_text_nodes {
                false
            } else {
                pretty
            };
            let child_indent: int = if has_text && !config.indent_text_nodes {
                0
            } else if config.is_pretty {
                add_indent(indent, config.indent as int)
            } else {
                indent
            };
            let close = if (config.indent_text_nodes || !has_text) && pretty {
                spaces(indent) + seq!['<', '/'] + name + seq!['>', '\n']
            } else {
                seq!['<', '/'] + name + seq!['>'] + nl(pretty)
            };
            open + ser_nodes(doc, kids, 0, config, child_pretty, child_indent, (fuel - 1) as nat)
                + close
        }
    }
}

/// The listed nodes from position `i` on, in order.
pub open spec fn ser_nodes(
    doc: Document,
    kids: Seq<Node>,
    i: int,
    config: Config,
    pretty: bool,
    indent: int,
    fuel: nat,
) -> Seq<char>
    decreases fuel, kids.len() - i, 1int,
{
    if i < 0 || i >= kids.len() {
        Seq::empty()
    } else {
        ser_node(doc, kids[i], config, pretty, indent, fuel) + ser_nodes(
            doc,
            kids,
            i + 1,
            config,
            pretty,
            indent,
            fuel,
        )
    }
}

/// One node of any kind. A processing-instruction handle has no stored
/// payload and renders as nothing.
pub open spec fn ser_node(
    doc: Document,
    n: Node,
    config: Config,
    pretty: bool,
    indent: int,
    fuel: nat,
) -> Seq<char>
    decreases fuel, 0int, 1int,
{
    match n {
        Node::Element(e) => ser_element(doc, e.0, config, pretty, indent, fuel),
        Node::Text(t) => {
            let s = doc.value_of(t.0)->Text_0@;
            if config.indent_text_nodes && pretty {
                spaces(indent) + escape_text(
                    crate::text::trim_chars(s),
                    config.entity_mode,
                    true,
                    true,
                ) + seq!['\n']
            } else {
                escape_text(s, config.entity_mode, true, true)
            }
        },
        Node::CDataSection(c) => {
            let s = doc.value_of(c.0)->CData_0@;
            let body = seq!['<', '!', '[', 'C', 'D', 'A', 'T', 'A', '['] + s + seq![']', ']', '>'];
            if config.indent_text_nodes && pretty {
                spaces(indent) + body + seq!['\n']
            } else {
                body
            }
        },
        Node::Comment(c) => {
            let s = doc.value_of(c.0)->Comment_0@;
            let body = seq!['<', '!', '-', '-'] + escape_text(s, config.entity_mode, true, true)
                + seq!['-', '-', '>'];
            if pretty {
                spaces(indent) + body + seq!['\n']
            } else {
                body
            }
        },
        Node::DocumentType(d) => {
            let s = doc.value_of(d.0)->DocumentType_0@;
            let body = seq!['<', '!', 'D', 'O', 'C', 'T', 'Y', 'P', 'E', ' '] + s + seq!['>'];
            if pretty {
                spaces(indent) + body + seq!['\n']
            } else {
                body
            }
        },
        Node::ProcessingInstruction(_) => Seq::empty(),
    }
}

/// The declaration: only the present fields are rendered.
pub open spec fn decl_text(d: Declaration, pretty: bool) -> Seq<char> {
    let head = seq!['<', '?', 'x', 'm', 'l'];
    let v: Seq<char> = match d.version {
        Some(v) => seq![' ', 'v', 'e', 'r', 's', 'i', 'o', 'n', '=', '"'] + v@ + seq!['"'],
        None => Seq::empty(),
    };
    let e: Seq<char> = match d.encoding {
        Some(e) => seq![' ', 'e', 'n', 'c', 'o', 'd', 'i', 'n', 'g', '=', '"'] + e@ + seq!['"'],
        None => Seq::empty(),
    };
    let st: Seq<char> = match d.standalone {
        Some(st) => seq![' ', 's', 't', 'a', 'n', 'd', 'a', 'l', 'o', 'n', 'e', '=', '"'] + st@
            + seq!['"'],
        None => Seq::empty(),
    };
    head + v + e + st + seq!['?', '>'] + nl(pretty)
}

/// The whole document: declaration, the nodes before the root, the root
/// subtree, the nodes after it.
pub open spec fn ser_document(doc: Document, config: Config) -> Seq<char> {
    let pretty = config.is_pretty;
    let d: Seq<char> = match doc.spec_decl() {
        Some(d) => decl_text(d, pretty),
        None => Seq::empty(),
    };
    d + ser_nodes(doc, doc.spec_before(), 0, config, pretty, 0, doc.spec_fuel()) + ser_element(
        doc,
        doc.spec_root().0,
        config,
        pretty,
        0,
        doc.spec_fuel(),
    ) + ser_nodes(doc, doc.spec_after(), 0, config, pretty, 0, doc.spec_fuel())
}

/// Indentation grows by saturating addition, so that arbitrarily deep trees
/// still render.
pub open spec fn add_indent(a: int, b: int) -> int {
    if a + b <= usize::MAX {
        a + b
    } else {
        usize::MAX as int
    }
}

fn add_indent_exec(a: usize, b: usize) -> (r: usize)
    ensures
        r as int == add_indent(a as int, b as int),
{
    if a <= usize::MAX - b {
        a + b
    } else {
        usize::MAX
    }
}

/// Decides whether the start tag built from the first `upto` attributes
/// overruns the configured line length.
fn attrs_wrap_exec(
    name: &str,
    attrs: &Vec<(QName, String)>,
    config: &Config,
    pretty: bool,
    upto: usize,
) -> (r: bool)
    requires
        upto <= attrs@.len(),
    ensures
        r == attrs_wrap(name@, attrs@, *config, pretty, upto as int),
{
    if !pretty {
        return false;
    }
    let maxl = config.max_line_length as u128;
    let mut acc: u128 = (name.len() as u128) + 2;
    proof {
        assert(name.spec_bytes() =~= vstd::utf8::encode_utf8(name@));
        assert(acc as int == attrs_line_len(name@, attrs@, 0));
    }
    if acc > maxl {
        proof {
            lemma_attrs_line_len_mono(name@, attrs@, 0, upto as int);
        }
        return true;
    }
    let mut i: usize = 0;
    while i < upto
        invariant
            upto <= attrs@.len(),
            i <= upto,
            acc as int == attrs_line_len(name@, attrs@, i as int),
            acc <= maxl,
            maxl == config.max_line_length as u128,
            pretty,
        decreases upto - i,
    {
        let a = &attrs[i];
        let kn = a.0.prefixed_name();
        let vs = a.1.as_str();
        let term: u128 = (kn.len() as u128) + (vs.len() as u128) + 4;
        acc = acc + term;
        proof {
            assert(*a == attrs@[i as int]);
            assert(kn@ == attrs@[i as int].0@);
            assert(vs@ == attrs@[i as int].1@);
            assert(kn.spec_bytes() =~= vstd::utf8::encode_utf8(attrs@[i as int].0@));
            assert(vs.spec_bytes() =~= vstd::utf8::encode_utf8(attrs@[i as int].1@));
            assert(term as int == byte_len(attrs@[i as int].0@) + byte_len(attrs@[i as int].1@)
                + 4);
            assert(acc as int == attrs_line_len(name@, attrs@, i + 1));
        }
        if acc > maxl {
            proof {
                lemma_attrs_line_len_mono(name@, attrs@, i + 1, upto as int);
            }
            return true;
        }
        i += 1;
    }
    false
}

/// Appends one attribute as `name="value"`.
fn push_attr(out: &mut Vec<char>, a: &(QName, String), config: &Config)
    ensures
        final(out)@ == old(out)@ + attr_text((a.0, a.1), *config),
{
    push_str_chars(out, a.0.prefixed_name());
    out.push('=');
    out.push('"');
    push_escaped(out, a.1.as_str(), config.entity_mode, false, false);
    out.push('"');
    proof {
        assert(*a == (a.0, a.1));
        assert(final(out)@ =~= old(out)@ + attr_text((a.0, a.1), *config));
    }
}

/// Appends a start tag up to, but not including, its closing bracket.
fn push_open_tag(
    out: &mut Vec<char>,
    name: &str,
    attrs: &Vec<(QName, String)>,
    config: &Config,
    pretty: bool,
    indent: usize,
)
    ensures
        final(out)@ == old(out)@ + open_tag_text(name@, attrs@, *config, pretty, indent as int),
{
    push_spaces(out, indent);
    out.push('<');
    push_str_chars(out, name);
    if attrs.len() == 0 {
        proof {
            assert(final(out)@ =~= old(out)@ + open_tag_text(
                name@,
                attrs@,
                *config,
                pretty,
                indent as int,
            ));
        }
        return ;
    }
    if attrs_wrap_exec(name, attrs, config, pretty, 1) {
        out.push('\n');
        push_spaces(out, indent);
        push_spaces(out, config.indent);
        proof {
            assert(spaces(indent as int) + spaces(config.indent as int) =~= spaces(
                indent as int + config.indent as int,
            ));
        }
    } else {
        out.push(' ');
    }
    let ghost base = out@;
    proof {
        assert(base =~= old(out)@ + (spaces(indent as int) + seq!['<'] + name@) + first_attr_sep(
            name@,
            attrs@,
            *config,
            pretty,
            indent as int,
        ));
    }
    let wrap_all = attrs_wrap_exec(name, attrs, config, pretty, attrs.len());
    let mut i: usize = 0;
    while i < attrs.len()
        invariant
            i <= attrs@.len(),
            attrs@.len() > 0,
            wrap_all == attrs_wrap(name@, attrs@, *config, pretty, attrs@.len() as int),
            out@ + attrs_text_from(name@, attrs@, *config, pretty, indent as int, i as int) == base
                + attrs_text_from(name@, attrs@, *config, pretty, indent as int, 0),
        decreases attrs@.len() - i,
    {
        let ghost pre = out@;
        if i > 0 {
            if wrap_all {
                out.push('\n');
                push_spaces(out, indent);
                push_spaces(out, config.indent);
                proof {
                    assert(out@ =~= pre + (seq!['\n'] + spaces(
                        indent as int + config.indent as int,
                    )));
                }
            } else {
                out.push(' ');
                proof {
                    assert(out@ =~= pre + seq![' ']);
                }
            }
        }
        let a = &attrs[i];
        push_attr(out, a, config);
        proof {
            assert((attrs@[i as int].0, attrs@[i as int].1) == attrs@[i as int]);
            let sep: Seq<char> = if i == 0 {
                Seq::empty()
            } else if attrs_wrap(name@, attrs@, *config, pretty, attrs@.len() as int) {
                seq!['\n'] + spaces(indent as int + config.indent as int)
            } else {
                seq![' ']
            };
            assert(out@ =~= pre + sep + attr_text(attrs@[i as int], *config));
            assert(attrs_text_from(name@, attrs@, *config, pretty, indent as int, i as int) == sep
                + attr_text(attrs@[i as int], *config) + attrs_text_from(
                name@,
                attrs@,
                *config,
                pretty,
                indent as int,
                i + 1,
            ));
            assert(out@ + attrs_text_from(name@, attrs@, *config, pretty, indent as int, i + 1)
                =~= pre + attrs_text_from(name@, attrs@, *config, pretty, indent as int, i as int));
        }
        i += 1;
    }
    proof {
        assert(attrs_text_from(name@, attrs@, *config, pretty, indent as int, attrs@.len() as int)
            =~= Seq::<char>::empty());
        assert(out@ =~= out@ + Seq::<char>::empty());
        assert(out@ =~= base + attrs_text_from(name@, attrs@, *config, pretty, indent as int, 0));
        assert(out@ =~= old(out)@ + open_tag_text(name@, attrs@, *config, pretty, indent as int));
    }
}

/// Appends the characters of a buffer, escaped.
fn push_escaped_chars(
    out: &mut Vec<char>,
    s: &Vec<char>,
    mode: EntityMode,
    allow_separators: bool,
    is_text: bool,
)
    ensures
        final(out)@ == old(out)@ + escape_text(s@, mode, allow_separators, is_text),
{
    let mut i: usize = 0;
    while i < s.len()
        invariant
            i <= s@.len(),
            out@ == old(out)@ + escape_text(s@.take(i as int), mode, allow_separators, is_text),
        decreases s@.len() - i,
    {
        push_escaped_char(out, s[i], mode, allow_separators, is_text);
        proof {
            lemma_escape_text_snoc(s@.take(i + 1), mode, allow_separators, is_text);
            assert(s@.take(i + 1).drop_last() =~= s@.take(i as int));
            assert(s@.take(i + 1).last() == s@[i as int]);
        }
        i += 1;
    }
    proof {
        assert(s@.take(s@.len() as int) =~= s@);
    }
}


/// Renders a childless element as a self-closing tag.
fn push_empty_element(
    out: &mut Vec<char>,
    name: &str,
    attrs: &Vec<(QName, String)>,
    config: &Config,
    pretty: bool,
    indent: usize,
)
    ensures
        final(out)@ == old(out)@ + (if attrs@.len() > 0 {
            open_tag_text(name@, attrs@, *config, pretty, indent as int) + seq![' ', '/', '>'] + nl(
                pretty,
            )
        } else {
            spaces(indent as int) + seq!['<'] + name@ + seq!['/', '>'] + nl(pretty)
        }),
{
    if attrs.len() > 0 {
        push_open_tag(out, name, attrs, config, pretty, indent);
        out.push(' ');
        out.push('/');
        out.push('>');
        if pretty {
            out.push('\n');
        }
        proof {
            assert(final(out)@ =~= old(out)@ + (open_tag_text(
                name@,
                attrs@,
                *config,
                pretty,
                indent as int,
            ) + seq![' ', '/', '>'] + nl(pretty)));
        }
    } else {
        push_spaces(out, indent);
        out.push('<');
        push_str_chars(out, name);
        out.push('/');
        out.push('>');
        if pretty {
            out.push('\n');
        }
        proof {
            assert(final(out)@ =~= old(out)@ + (spaces(indent as int) + seq!['<'] + name@ + seq![
                '/',
                '>',
            ] + nl(pretty)));
        }
    }
}

/// Renders a close tag, indented on its own line unless the subtree is flush
/// against its tags.
fn push_close_tag(out: &mut Vec<char>, name: &str, pretty: bool, indent: usize, own_line: bool)
    ensures
        final(out)@ == old(out)@ + (if own_line && pretty {
            spaces(indent as int) + seq!['<', '/'] + name@ + seq!['>', '\n']
        } else {
            seq!['<', '/'] + name@ + seq!['>'] + nl(pretty)
        }),
{
    if own_line && pretty {
        push_spaces(out, indent);
        out.push('<');
        out.push('/');
        push_str_chars(out, name);
        out.push('>');
        out.push('\n');
        proof {
            assert(final(out)@ =~= old(out)@ + (spaces(indent as int) + seq!['<', '/'] + name@
                + seq!['>', '\n']));
        }
    } else {
        out.push('<');
        out.push('/');
        push_str_chars(out, name);
        out.push('>');
        if pretty {
            out.push('\n');
        }
        proof {
            assert(final(out)@ =~= old(out)@ + (seq!['<', '/'] + name@ + seq!['>'] + nl(pretty)));
        }
    }
}


/// Whether the list holds a text or CDATA node.
fn scan_has_text(kids: &Vec<Node>) -> (r: bool)
    ensures
        r == exists|j: int|
            0 <= j < kids@.len() && ((#[trigger] kids@[j]) is Text || kids@[j] is CDataSection),
{
    let mut has_text = false;
    let mut i: usize = 0;
    while i < kids.len()
        invariant
            i <= kids@.len(),
            has_text == exists|j: int|
                0 <= j < i && ((#[trigger] kids@[j]) is Text || kids@[j] is CDataSection),
        decreases kids@.len() - i,
    {
        match kids[i] {
            Node::Text(_) => {
                has_text = true;
            },
            Node::CDataSection(_) => {
                has_text = true;
            },
            _ => {},
        }
        i += 1;
    }
    has_text
}

/// Renders the children of a live element, in order.
#[verifier::rlimit(100)]
#[verifier::spinoff_prover]
fn ser_children_exec(
    doc: &Document,
    out: &mut Vec<char>,
    k: DocKey,
    kids: &Vec<Node>,
    config: &Config,
    pretty: bool,
    indent: usize,
    fuel: usize,
)
    requires
        doc.wf(),
        doc.is_element_key(k),
        kids@ == doc.children_of(k),
    ensures
        final(out)@ == old(out)@ + ser_nodes(
            *doc,
            kids@,
            0,
            *config,
            pretty,
            indent as int,
            fuel as nat,
        ),
    decreases fuel, kids@.len() + 2, 2int,
{
    broadcast use crate::document::group_doc_bridge;

    let mut j: usize = 0;
    while j < kids.len()
        invariant
            doc.wf(),
            doc.is_element_key(k),
            j <= kids@.len(),
            kids@ == doc.children_of(k),
            out@ + ser_nodes(*doc, kids@, j as int, *config, pretty, indent as int, fuel as nat)
                == old(out)@ + ser_nodes(
                *doc,
                kids@,
                0,
                *config,
                pretty,
                indent as int,
                fuel as nat,
            ),
        decreases kids@.len() - j,
    {
        let ghost pre = out@;
        proof {
            assert(doc.children_of(k)[j as int] == kids@[j as int]);
            assert(doc.arena.children_of(k)[j as int] == kids@[j as int]);
            assert(doc.handle_ok(kids@[j as int]));
            crate::document::lemma_doc_handle_ok(*doc, kids@[j as int]);
        }
        ser_node_exec(doc, out, kids[j], config, pretty, indent, fuel);
        proof {
            assert(out@ =~= pre + ser_node(
                *doc,
                kids@[j as int],
                *config,
                pretty,
                indent as int,
                fuel as nat,
            ));
        }
        j += 1;
    }
    proof {
        assert(ser_nodes(*doc, kids@, kids@.len() as int, *config, pretty, indent as int, fuel as nat)
            =~= Seq::<char>::empty());
        assert(out@ =~= out@ + Seq::<char>::empty());
    }
}

/// Renders an element with children: open tag, children, close tag.
#[verifier::rlimit(100)]
#[verifier::spinoff_prover]
fn ser_nonempty_element(
    doc: &Document,
    out: &mut Vec<char>,
    k: DocKey,
    name: &str,
    attrs: &Vec<(QName, String)>,
    kids: &Vec<Node>,
    config: &Config,
    pretty: bool,
    indent: usize,
    fuel: usize,
)
    requires
        doc.wf(),
        doc.is_element_key(k),
        fuel >= 1,
        name@ == doc.name_of(k)@,
        attrs@ == doc.attrs_of(k),
        kids@ == doc.children_of(k),
        kids@.len() > 0,
    ensures
        final(out)@ == old(out)@ + ser_element(*doc, k, *config, pretty, indent as int, fuel as nat),
    decreases fuel, 0int, 9int,
{
    broadcast use crate::document::group_doc_bridge;

    let has_text = scan_has_text(kids);
    proof {
        assert(has_text == spec_has_text(*doc, kids@));
    }
    push_open_tag(out, name, attrs, config, pretty, indent);
    out.push('>');
    if (config.indent_text_nodes || !has_text) && pretty {
        out.push('\n');
    }
    let ghost opened = out@;
    proof {
        assert(opened =~= old(out)@ + (open_tag_text(
            name@,
            attrs@,
            *config,
            pretty,
            indent as int,
        ) + seq!['>'] + (if (config.indent_text_nodes || !has_text) && pretty {
            seq!['\n']
        } else {
            Seq::<char>::empty()
        })));
    }
    let child_pretty = if has_text && !config.indent_text_nodes {
        false
    } else {
        pretty
    };
    let child_indent: usize = if has_text && !config.indent_text_nodes {
        0
    } else if config.is_pretty {
        add_indent_exec(indent, config.indent)
    } else {
        indent
    };
    ser_children_exec(doc, out, k, kids, config, child_pretty, child_indent, fuel - 1);
    push_close_tag(out, name, pretty, indent, config.indent_text_nodes || !has_text);
    proof {
        assert(final(out)@ =~= old(out)@ + ser_element(
            *doc,
            k,
            *config,
            pretty,
            indent as int,
            fuel as nat,
        ));
    }
}

/// Renders one element subtree.
#[verifier::rlimit(100)]
#[verifier::spinoff_prover]
fn ser_element_exec(
    doc: &Document,
    out: &mut Vec<char>,
    k: DocKey,
    config: &Config,
    pretty: bool,
    indent: usize,
    fuel: usize,
)
    requires
        doc.wf(),
        doc.is_element_key(k),
    ensures
        final(out)@ == old(out)@ + ser_element(*doc, k, *config, pretty, indent as int, fuel as nat),
    decreases fuel, 1int, 0int,
{
    broadcast use crate::document::group_doc_bridge, crate::arena::lemma_arena_name_of, crate::arena::lemma_arena_children_of;

    if fuel == 0 {
        return ;
    }
    let name = match doc.arena.name(k) {
        Some(n) => n.prefixed_name(),
        None => {
            proof {
                assert(false);
            }
            ""
        },
    };
    let attrs = match doc.arena.attrs(k) {
        Some(a) => a,
        None => {
            proof {
                assert(false);
            }
            return ;
        },
    };
    let kids = match doc.arena.children(k) {
        Some(c) => c,
        None => {
            proof {
                assert(false);
            }
            return ;
        },
    };
    if kids.len() == 0 {
        push_empty_element(out, name, attrs, config, pretty, indent);
        proof {
            assert(final(out)@ =~= old(out)@ + ser_element(
                *doc,
                k,
                *config,
                pretty,
                indent as int,
                fuel as nat,
            ));
        }
        return ;
    }
    ser_nonempty_element(doc, out, k, name, attrs, kids, config, pretty, indent, fuel);
}

/// Renders one node of any kind; a child element must be live, as every
/// child of a well-formed document is.
#[verifier::rlimit(100)]
#[verifier::spinoff_prover]
fn ser_node_exec(
    doc: &Document,
    out: &mut Vec<char>,
    n: Node,
    config: &Config,
    pretty: bool,
    indent: usize,
    fuel: usize,
)
    requires
        doc.wf(),
        doc.handle_ok_pub(n),
    ensures
        final(out)@ == old(out)@ + ser_node(*doc, n, *config, pretty, indent as int, fuel as nat),
    decreases fuel, 2int, 1int,
{
    broadcast use crate::document::group_doc_bridge;

    proof {
        crate::document::lemma_doc_handle_ok(*doc, n);
    }
    match n {
        Node::Element(e) => {
            ser_element_exec(doc, out, e.0, config, pretty, indent, fuel);
        },
        Node::Text(t) => {
            let s = match doc.arena.value(t.0) {
                Some(NodeValue::Text(s)) => s,
                _ => {
                    proof {
                        assert(false);
                    }
                    return ;
                },
            };
            if config.indent_text_nodes && pretty {
                push_spaces(out, indent);
                let trimmed = crate::text::trim_to_chars(s.as_str());
                push_escaped_chars(out, &trimmed, config.entity_mode, true, true);
                out.push('\n');
            } else {
                push_escaped(out, s.as_str(), config.entity_mode, true, true);
            }
            proof {
                assert(final(out)@ =~= old(out)@ + ser_node(
                    *doc,
                    n,
                    *config,
                    pretty,
                    indent as int,
                    fuel as nat,
                ));
            }
        },
        Node::CDataSection(c) => {
            let s = match doc.arena.value(c.0) {
                Some(NodeValue::CData(s)) => s,
                _ => {
                    proof {
                        assert(false);
                    }
                    return ;
                },
            };
            if config.indent_text_nodes && pretty {
                push_spaces(out, indent);
            }
            push_str_chars(out, "<![CDATA[");
            push_str_chars(out, s.as_str());
            push_str_chars(out, "]]>");
            if config.indent_text_nodes && pretty {
                out.push('\n');
            }
            proof {
                reveal_strlit("<![CDATA[");
                reveal_strlit("]]>");
                assert("<![CDATA["@ =~= seq!['<', '!', '[', 'C', 'D', 'A', 'T', 'A', '[']);
                assert("]]>"@ =~= seq![']', ']', '>']);
                assert(final(out)@ =~= old(out)@ + ser_node(
                    *doc,
                    n,
                    *config,
                    pretty,
                    indent as int,
                    fuel as nat,
                ));
            }
        },
        Node::Comment(c) => {
            let s = match doc.arena.value(c.0) {
                Some(NodeValue::Comment(s)) => s,
                _ => {
                    proof {
                        assert(false);
                    }
                    return ;
                },
            };
            if pretty {
                push_spaces(out, indent);
            }
            push_str_chars(out, "<!--");
            push_escaped(out, s.as_str(), config.entity_mode, true, true);
            push_str_chars(out, "-->");
            if pretty {
                out.push('\n');
            }
            proof {
                reveal_strlit("<!--");
                reveal_strlit("-->");
                assert("<!--"@ =~= seq!['<', '!', '-', '-']);
                assert("-->"@ =~= seq!['-', '-', '>']);
                assert(final(out)@ =~= old(out)@ + ser_node(
                    *doc,
                    n,
                    *config,
                    pretty,
                    indent as int,
                    fuel as nat,
                ));
            }
        },
        Node::DocumentType(d) => {
            let s = match doc.arena.value(d.0) {
                Some(NodeValue::DocumentType(s)) => s,
                _ => {
                    proof {
                        assert(false);
                    }
                    return ;
                },
            };
            if pretty {
                push_spaces(out, indent);
            }
            push_str_chars(out, "<!DOCTYPE ");
            push_str_chars(out, s.as_str());
            out.push('>');
            if pretty {
                out.push('\n');
            }
            proof {
                reveal_strlit("<!DOCTYPE ");
                assert("<!DOCTYPE "@ =~= seq!['<', '!', 'D', 'O', 'C', 'T', 'Y', 'P', 'E', ' ']);
                assert(final(out)@ =~= old(out)@ + ser_node(
                    *doc,
                    n,
                    *config,
                    pretty,
                    indent as int,
                    fuel as nat,
                ));
            }
        },
        Node::ProcessingInstruction(_) => {
            proof {
                assert(false);
            }
        },
    }
}

/// Appends the rendered declaration.
#[verifier::rlimit(100)]
#[verifier::spinoff_prover]
fn push_decl(out: &mut Vec<char>, d: &Declaration, pretty: bool)
    ensures
        final(out)@ == old(out)@ + decl_text(*d, pretty),
{
    push_str_chars(out, "<?xml");
    proof {
        reveal_strlit("<?xml");
        assert("<?xml"@ =~= seq!['<', '?', 'x', 'm', 'l']);
    }
    match &d.version {
        Some(v) => {
            push_str_chars(out, " version=\"");
            push_str_chars(out, v.as_str());
            out.push('"');
            proof {
                reveal_strlit(" version=\"");
                assert(" version=\""@ =~= seq![
                    ' ',
                    'v',
                    'e',
                    'r',
                    's',
                    'i',
                    'o',
                    'n',
                    '=',
                    '"',
                ]);
            }
        },
        None => {},
    }
    match &d.encoding {
        Some(e) => {
            push_str_chars(out, " encoding=\"");
            push_str_chars(out, e.as_str());
            out.push('"');
            proof {
                reveal_strlit(" encoding=\"");
                assert(" encoding=\""@ =~= seq![
                    ' ',
                    'e',
                    'n',
                    'c',
                    'o',
                    'd',
                    'i',
                    'n',
                    'g',
                    '=',
                    '"',
                ]);
            }
        },
        None => {},
    }
    match &d.standalone {
        Some(st) => {
            push_str_chars(out, " standalone=\"");
            push_str_chars(out, st.as_str());
            out.push('"');
            proof {
                reveal_strlit(" standalone=\"");
                assert(" standalone=\""@ =~= seq![
                    ' ',
                    's',
                    't',
                    'a',
                    'n',
                    'd',
                    'a',
                    'l',
                    'o',
                    'n',
                    'e',
                    '=',
                    '"',
                ]);
            }
        },
        None => {},
    }
    out.push('?');
    out.push('>');
    if pretty {
        out.push('\n');
    }
    proof {
        assert(final(out)@ =~= old(out)@ + decl_text(*d, pretty));
    }
}

/// Renders a list of free-standing nodes.
fn ser_list_exec(doc: &Document, out: &mut Vec<char>, list: &Vec<Node>, config: &Config)
    requires
        doc.wf(),
        forall|i: int| 0 <= i < list@.len() ==> doc.handle_ok_pub(#[trigger] list@[i]),
    ensures
        final(out)@ == old(out)@ + ser_nodes(
            *doc,
            list@,
            0,
            *config,
            config.is_pretty,
            0,
            doc.spec_fuel(),
        ),
{
    broadcast use crate::document::group_doc_bridge;

    let fuel = doc.arena.slot_count();
    let fuel = if fuel < usize::MAX {
        fuel + 1
    } else {
        fuel
    };
    proof {
        assert(fuel as nat == doc.spec_fuel());
    }
    let mut j: usize = 0;
    while j < list.len()
        invariant
            doc.wf(),
            forall|i: int| 0 <= i < list@.len() ==> doc.handle_ok_pub(#[trigger] list@[i]),
            j <= list@.len(),
            fuel as nat == doc.spec_fuel(),
            out@ + ser_nodes(*doc, list@, j as int, *config, config.is_pretty, 0, fuel as nat)
                == old(out)@ + ser_nodes(
                *doc,
                list@,
                0,
                *config,
                config.is_pretty,
                0,
                fuel as nat,
            ),
        decreases list@.len() - j,
    {
        let ghost pre = out@;
        ser_node_exec(doc, out, list[j], config, config.is_pretty, 0, fuel);
        j += 1;
    }
    proof {
        assert(ser_nodes(*doc, list@, list@.len() as int, *config, config.is_pretty, 0, fuel as nat)
            =~= Seq::<char>::empty());
        assert(out@ =~= out@ + Seq::<char>::empty());
    }
}

/// Turns the finished character buffer into a string. Relies on the standard
/// collector for strings from characters: the result holds exactly the
/// characters of the buffer, in order.
#[verifier::external_body]
pub(crate) fn string_from_chars(v: Vec<char>) -> (r: String)
    ensures
        r@ == v@,
{
    v.into_iter().collect()
}

impl Document {
    /// Renders the document under the given configuration.
    pub fn to_string_with_config(&self, config: &Config) -> (r: String)
        requires
            self.wf(),
        ensures
            r@ == ser_document(*self, *config),
    {
        broadcast use crate::document::group_doc_bridge;

        let mut out: Vec<char> = Vec::new();
        match self.declaration() {
            Some(d) => {
                push_decl(&mut out, d, config.is_pretty);
            },
            None => {},
        }
        proof {
            crate::document::lemma_floating_handles(*self);
        }
        ser_list_exec(self, &mut out, &self.before, config);
        let fuel = self.arena.slot_count();
        let fuel = if fuel < usize::MAX {
            fuel + 1
        } else {
            fuel
        };
        proof {
            assert(fuel as nat == self.spec_fuel());
        }
        ser_element_exec(self, &mut out, self.root_key.0, config, config.is_pretty, 0, fuel);
        ser_list_exec(self, &mut out, &self.after, config);
        let r = string_from_chars(out);
        proof {
            assert(r@ =~= ser_document(*self, *config));
        }
        r
    }

    /// Compact, single-line rendering: an untouched parsed document is
    /// reproduced byte for byte.
    pub fn to_string(&self) -> (r: String)
        requires
            self.wf(),
        ensures
            r@ == ser_document(
                *self,
                Config {
                    is_pretty: false,
                    indent: 0,
                    max_line_length: 0,
                    entity_mode: EntityMode::Standard,
                    indent_text_nodes: false,
                },
            ),
    {
        let config = Config::default_compact();
        self.to_string_with_config(&config)
    }

    /// Pretty rendering under the default configuration.
    pub fn to_string_pretty(&self) -> (r: String)
        requires
            self.wf(),
        ensures
            r@ == ser_document(
                *self,
                Config {
                    is_pretty: true,
                    indent: 2,
                    max_line_length: 120,
                    entity_mode: EntityMode::Standard,
                    indent_text_nodes: true,
                },
            ),
    {
        let config = Config::default_pretty();
        self.to_string_with_config(&config)
    }

    /// Pretty rendering under a caller-supplied configuration.
    pub fn to_string_pretty_with_config(&self, config: &Config) -> (r: String)
        requires
            self.wf(),
        ensures
            r@ == ser_document(*self, *config),
    {
        self.to_string_with_config(config)
    }
}

impl Element {
    /// Renders this element's subtree under the default pretty configuration.
    pub fn display(&self, document: &Document) -> (r: Result<String, crate::document::DocError>)
        requires
            document.wf(),
        ensures
            match r {
                Ok(s) => document.is_element_key(self.0) && s@ == ser_element(
                    *document,
                    self.0,
                    Config {
                        is_pretty: true,
                        indent: 2,
                        max_line_length: 120,
                        entity_mode: EntityMode::Standard,
                        indent_text_nodes: true,
                    },
                    true,
                    0,
                    document.spec_fuel(),
                ),
                Err(_) => !document.is_element_key(self.0),
            },
    {
        broadcast use crate::document::group_doc_bridge;

        if !document.check_element(*self) {
            return Err(crate::document::DocError::StaleOrMissingHandle);
        }
        let config = Config::default_pretty();
        let mut out: Vec<char> = Vec::new();
        let fuel = document.arena.slot_count();
        let fuel = if fuel < usize::MAX {
            fuel + 1
        } else {
            fuel
        };
        proof {
            assert(fuel as nat == document.spec_fuel());
        }
        ser_element_exec(document, &mut out, self.0, &config, true, 0, fuel);
        Ok(string_from_chars(out))
    }
}

} // verus!
