//! Qualified XML names: an optional namespace prefix and a local part,
//! validated against the XML name-character productions.

use vstd::prelude::*;

use crate::text::lex_cmp;
use crate::text::str_cmp;

verus! {

/// A name-start character per the XML `NameStartChar` production.
pub open spec fn spec_is_name_start_char(c: char) -> bool {
    let u = c as u32;
    ||| c == ':'
    ||| ('A' <= c && c <= 'Z')
    ||| c == '_'
    ||| ('a' <= c && c <= 'z')
    ||| (0xC0 <= u && u <= 0xD6)
    ||| (0xD8 <= u && u <= 0xF6)
    ||| (0xF8 <= u && u <= 0x2FF)
    ||| (0x370 <= u && u <= 0x37D)
    ||| (0x37F <= u && u <= 0x1FFF)
    ||| (0x200C <= u && u <= 0x200D)
    ||| (0x2070 <= u && u <= 0x218F)
    ||| (0x2C00 <= u && u <= 0x2FEF)
    ||| (0x3001 <= u && u <= 0xD7FF)
    ||| (0xF900 <= u && u <= 0xFDCF)
    ||| (0xFDF0 <= u && u <= 0xFFFD)
    ||| (0x10000 <= u && u <= 0xEFFFF)
}

/// A name character per the XML `NameChar` production.
pub open spec fn spec_is_name_char(c: char) -> bool {
    let u = c as u32;
    ||| spec_is_name_start_char(c)
    ||| c == '-'
    ||| c == '.'
    ||| ('0' <= c && c <= '9')
    ||| u == 0xB7
    ||| (0x300 <= u && u <= 0x36F)
    ||| (0x203F <= u && u <= 0x2040)
}

/// A non-empty name whose first character is a name-start character and whose
/// remaining characters are name characters.
pub open spec fn spec_valid_qname(s: Seq<char>) -> bool {
    &&& s.len() > 0
    &&& spec_is_name_start_char(s[0])
    &&& forall|i: int| 1 <= i < s.len() ==> spec_is_name_char(#[trigger] s[i])
}

fn is_name_start_char(c: char) -> (r: bool)
    ensures
        r == spec_is_name_start_char(c),
{
    let u = c as u32;
    c == ':' || ('A' <= c && c <= 'Z') || c == '_' || ('a' <= c && c <= 'z') || (0xC0 <= u && u
        <= 0xD6) || (0xD8 <= u && u <= 0xF6) || (0xF8 <= u && u <= 0x2FF) || (0x370 <= u && u
        <= 0x37D) || (0x37F <= u && u <= 0x1FFF) || (0x200C <= u && u <= 0x200D) || (0x2070 <= u
        && u <= 0x218F) || (0x2C00 <= u && u <= 0x2FEF) || (0x3001 <= u && u <= 0xD7FF) || (0xF900
        <= u && u <= 0xFDCF) || (0xFDF0 <= u && u <= 0xFFFD) || (0x10000 <= u && u <= 0xEFFFF)
}

fn is_name_char(c: char) -> (r: bool)
    ensures
        r == spec_is_name_char(c),
{
    let u = c as u32;
    is_name_start_char(c) || c == '-' || c == '.' || ('0' <= c && c <= '9') || u == 0xB7 || (0x300
        <= u && u <= 0x36F) || (0x203F <= u && u <= 0x2040)
}

/// Decides whether the input is a syntactically valid qualified name.
pub fn is_valid_qname(input: &str) -> (r: bool)
    ensures
        r == spec_valid_qname(input@),
{
    let n = input.unicode_len();
    if n == 0 {
        return false;
    }
    if !is_name_start_char(input.get_char(0)) {
        return false;
    }
    let mut i: usize = 1;
    while i < n
        invariant
            n == input@.len(),
            1 <= i <= n,
            spec_is_name_start_char(input@[0]),
            forall|j: int| 1 <= j < i ==> spec_is_name_char(#[trigger] input@[j]),
        decreases n - i,
    {
        if !is_name_char(input.get_char(i)) {
            return false;
        }
        i += 1;
    }
    true
}

/// The position of the first colon in the string, if any.
fn find_colon(s: &str) -> (r: Option<usize>)
    ensures
        match r {
            Some(c) => c < s@.len() && s@[c as int] == ':' && forall|j: int|
                0 <= j < c ==> s@[j] != ':',
            None => forall|j: int| 0 <= j < s@.len() ==> s@[j] != ':',
        },
{
    let n = s.unicode_len();
    let mut i: usize = 0;
    while i < n
        invariant
            n == s@.len(),
            i <= n,
            forall|j: int| 0 <= j < i ==> s@[j] != ':',
        decreases n - i,
    {
        if s.get_char(i) == ':' {
            return Some(i);
        }
        i += 1;
    }
    None
}

/// The error returned when a string is not a valid qualified name.
#[derive(Debug, Clone, Copy)]
pub struct Error;

/// A qualified name. Equality and order are decided on the full prefixed
/// form; the namespace prefix, when present, is the part before the first
/// colon.
#[derive(Debug)]
pub struct QName {
    namespace: Option<String>,
    local_part: String,
    prefixed_name: String,
}

impl QName {
    /// The internal consistency of the three stored forms.
    pub closed spec fn wf(&self) -> bool {
        &&& spec_valid_qname(self.prefixed_name@)
        &&& match self.namespace {
            Some(ns) => {
                &&& self.prefixed_name@ == ns@ + seq![':'] + self.local_part@
                &&& forall|i: int| 0 <= i < ns@.len() ==> ns@[i] != ':'
            },
            None => {
                &&& self.prefixed_name@ == self.local_part@
                &&& forall|i: int|
                    0 <= i < self.local_part@.len() ==> self.local_part@[i] != ':'
            },
        }
    }

    /// The full prefixed form, the identity of the name.
    pub closed spec fn view(&self) -> Seq<char> {
        self.prefixed_name@
    }

    pub closed spec fn spec_namespace(&self) -> Option<Seq<char>> {
        match self.namespace {
            Some(ns) => Some(ns@),
            None => None,
        }
    }

    pub closed spec fn spec_local_part(&self) -> Seq<char> {
        self.local_part@
    }

    /// How the stored parts relate to the prefixed form: the namespace is
    /// the text before the first colon, the local part the rest; without a
    /// colon the local part is the whole name.
    pub proof fn lemma_parts(&self)
        requires
            self.wf(),
        ensures
            match self.spec_namespace() {
                Some(ns) => {
                    &&& self@ == ns + seq![':'] + self.spec_local_part()
                    &&& forall|i: int| 0 <= i < ns.len() ==> ns[i] != ':'
                },
                None => {
                    &&& self@ == self.spec_local_part()
                    &&& forall|i: int| 0 <= i < self@.len() ==> self@[i] != ':'
                },
            },
    {
    }

    /// A well-formed name's prefixed form is a valid qualified name.
    pub proof fn lemma_wf_valid(&self)
        requires
            self.wf(),
        ensures
            spec_valid_qname(self@),
    {
    }

    /// Parses and validates a qualified name.
    pub fn new(name: &str) -> (r: Result<QName, Error>)
        ensures
            r is Ok <==> spec_valid_qname(name@),
            r matches Ok(q) ==> {
                &&& q.wf()
                &&& q@ == name@
                &&& (q.spec_namespace() is Some <==> name@.contains(':'))
                &&& match q.spec_namespace() {
                    Some(ns) => name@ == ns + seq![':'] + q.spec_local_part() && forall|i: int|
                        0 <= i < ns.len() ==> ns[i] != ':',
                    None => name@ == q.spec_local_part(),
                }
            },
    {
        if !is_valid_qname(name) {
            return Err(Error);
        }
        let n = name.unicode_len();
        let colon = find_colon(name);
        match colon {
            Some(c) => {
                let ns = name.substring_char(0, c);
                let local = name.substring_char(c + 1, n);
                let q = QName {
                    namespace: Some(ns.to_owned()),
                    local_part: local.to_owned(),
                    prefixed_name: name.to_owned(),
                };
                proof {
                    assert(q.prefixed_name@ =~= ns@ + seq![':'] + local@);
                    assert(name@.contains(':')) by {
                        assert(name@[c as int] == ':');
                    }
                }
                Ok(q)
            },
            None => {
                let q = QName {
                    namespace: None,
                    local_part: name.to_owned(),
                    prefixed_name: name.to_owned(),
                };
                proof {
                    assert(!name@.contains(':')) by {
                        assert(forall|j: int| 0 <= j < name@.len() ==> name@[j] != ':');
                    }
                }
                Ok(q)
            },
        }
    }

    /// Like `new`, for callers that already know the name is valid.
    pub fn new_unchecked(name: &str) -> (r: QName)
        requires
            spec_valid_qname(name@),
        ensures
            r.wf(),
            r@ == name@,
            r.spec_namespace() is Some <==> name@.contains(':'),
    {
        match Self::new(name) {
            Ok(q) => q,
            Err(_) => {
                proof {
                    assert(false);
                }
                QName { namespace: None, local_part: String::new(), prefixed_name: String::new() }
            },
        }
    }

    /// The namespace prefix, when the name has one.
    pub fn namespace(&self) -> (r: Option<&str>)
        ensures
            match r {
                Some(ns) => self.spec_namespace() == Some(ns@),
                None => self.spec_namespace() is None,
            },
    {
        match &self.namespace {
            Some(ns) => Some(ns.as_str()),
            None => None,
        }
    }

    /// The part after the namespace prefix, or the whole name without one.
    pub fn local_part(&self) -> (r: &str)
        ensures
            r@ == self.spec_local_part(),
    {
        self.local_part.as_str()
    }

    /// The full prefixed form.
    pub fn prefixed_name(&self) -> (r: &str)
        ensures
            r@ == self@,
    {
        self.prefixed_name.as_str()
    }

    /// Three-way comparison on the prefixed form.
    pub fn cmp_name(&self, other: &QName) -> (r: core::cmp::Ordering)
        ensures
            r == lex_cmp(self@, other@),
    {
        str_cmp(self.prefixed_name.as_str(), other.prefixed_name.as_str())
    }
}

impl Clone for QName {
    fn clone(&self) -> (r: Self)
        ensures
            r == *self,
    {
        QName {
            namespace: match &self.namespace {
                Some(ns) => Some(ns.clone()),
                None => None,
            },
            local_part: self.local_part.clone(),
            prefixed_name: self.prefixed_name.clone(),
        }
    }
}

impl PartialEq for QName {
    fn eq(&self, other: &Self) -> (r: bool) {
        crate::text::str_eq(self.prefixed_name.as_str(), other.prefixed_name.as_str())
    }
}

impl vstd::std_specs::cmp::PartialEqSpecImpl for QName {
    open spec fn obeys_eq_spec() -> bool {
        true
    }

    open spec fn eq_spec(&self, other: &Self) -> bool {
        self@ == other@
    }
}

} // verus!
