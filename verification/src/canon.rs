//! The canonicalizer's ordering keys and sorters. Attributes order by name;
//! sibling elements order by the composite key of the canonical form: name
//! first, then the `id` attribute when both sides carry one, then attribute
//! names position by position, then attribute count, then attribute values.
//! Free-standing siblings order by their original-appearance ordinal. The
//! sorts are stable insertion sorts; a sibling list mixing text and element
//! nodes is inline markup and is never reordered.

use vstd::prelude::*;

use crate::attrs::attr_key_index;
use crate::attrs::attr_lookup;
use crate::document::attrs_wf;
use crate::document::Document;
use crate::element::Element;
use crate::key::DocKey;
use crate::key::Node;
use crate::qname::QName;
use crate::text::lex_cmp;
use crate::text::str_cmp;
use vstd::seq_lib::lemma_multiset_commutative;

verus! {

broadcast use vstd::seq_lib::group_to_multiset_ensures;

/// The ordinal order of two sibling handles: their original-appearance order.
pub open spec fn spec_ord_node(a: Node, b: Node) -> core::cmp::Ordering {
    if a.spec_ordinal() < b.spec_ordinal() {
        core::cmp::Ordering::Less
    } else if a.spec_ordinal() > b.spec_ordinal() {
        core::cmp::Ordering::Greater
    } else {
        core::cmp::Ordering::Equal
    }
}

/// Orders two sibling handles by original appearance.
pub fn ord_node(n1: &Node, n2: &Node) -> (r: core::cmp::Ordering)
    ensures
        r == spec_ord_node(*n1, *n2),
{
    proof {
        crate::key::lemma_node_ordinal(*n1);
        crate::key::lemma_node_ordinal(*n2);
    }
    let a = n1.to_ordinal();
    let b = n2.to_ordinal();
    if a < b {
        core::cmp::Ordering::Less
    } else if a > b {
        core::cmp::Ordering::Greater
    } else {
        core::cmp::Ordering::Equal
    }
}

/// The name of the distinguished identifying attribute.
pub open spec fn id_name() -> Seq<char> {
    seq!['i', 'd']
}

/// Attribute names compared position by position from `i`, up to the shorter
/// table.
pub open spec fn cmp_attr_names(
    a: Seq<(QName, String)>,
    b: Seq<(QName, String)>,
    i: int,
) -> core::cmp::Ordering
    decreases a.len() - i,
{
    if i < 0 || i >= a.len() || i >= b.len() {
        core::cmp::Ordering::Equal
    } else {
        let c = lex_cmp(a[i].0@, b[i].0@);
        if c != core::cmp::Ordering::Equal {
            c
        } else {
            cmp_attr_names(a, b, i + 1)
        }
    }
}

/// Attribute values compared position by position from `i`, up to the
/// shorter table.
pub open spec fn cmp_attr_vals(
    a: Seq<(QName, String)>,
    b: Seq<(QName, String)>,
    i: int,
) -> core::cmp::Ordering
    decreases a.len() - i,
{
    if i < 0 || i >= a.len() || i >= b.len() {
        core::cmp::Ordering::Equal
    } else {
        let c = lex_cmp(a[i].1@, b[i].1@);
        if c != core::cmp::Ordering::Equal {
            c
        } else {
            cmp_attr_vals(a, b, i + 1)
        }
    }
}

/// The composite element ordering key, first mismatch decides: name; the
/// `id` attribute's value when both elements carry one; attribute names
/// position by position; attribute count; attribute values position by
/// position. A total pre-order: fully identical elements compare equal.
pub open spec fn spec_ord_elem(d: Document, a: DocKey, b: DocKey) -> core::cmp::Ordering {
    let c1 = lex_cmp(d.name_of(a)@, d.name_of(b)@);
    if c1 != core::cmp::Ordering::Equal {
        c1
    } else {
        let aat = d.attrs_of(a);
        let bat = d.attrs_of(b);
        let c2 = match (attr_lookup(aat, id_name()), attr_lookup(bat, id_name())) {
            (Some(va), Some(vb)) => lex_cmp(va, vb),
            _ => core::cmp::Ordering::Equal,
        };
        if c2 != core::cmp::Ordering::Equal {
            c2
        } else {
            let c3 = cmp_attr_names(aat, bat, 0);
            if c3 != core::cmp::Ordering::Equal {
                c3
            } else {
                let c4: core::cmp::Ordering = if aat.len() < bat.len() {
                    core::cmp::Ordering::Less
                } else if aat.len() > bat.len() {
                    core::cmp::Ordering::Greater
                } else {
                    core::cmp::Ordering::Equal
                };
                if c4 != core::cmp::Ordering::Equal {
                    c4
                } else {
                    cmp_attr_vals(aat, bat, 0)
                }
            }
        }
    }
}

/// Compares the names of two attribute tables pointwise.
fn cmp_attr_names_exec(a: &Vec<(QName, String)>, b: &Vec<(QName, String)>) -> (r:
    core::cmp::Ordering)
    ensures
        r == cmp_attr_names(a@, b@, 0),
{
    let n = if a.len() < b.len() {
        a.len()
    } else {
        b.len()
    };
    let mut i: usize = 0;
    while i < n
        invariant
            n <= a@.len(),
            n <= b@.len(),
            n == a@.len() || n == b@.len(),
            i <= n,
            cmp_attr_names(a@, b@, 0) == cmp_attr_names(a@, b@, i as int),
        decreases n - i,
    {
        let c = str_cmp(a[i].0.prefixed_name(), b[i].0.prefixed_name());
        if !matches!(c, core::cmp::Ordering::Equal) {
            return c;
        }
        i += 1;
    }
    core::cmp::Ordering::Equal
}

/// Compares the values of two attribute tables pointwise.
fn cmp_attr_vals_exec(a: &Vec<(QName, String)>, b: &Vec<(QName, String)>) -> (r:
    core::cmp::Ordering)
    ensures
        r == cmp_attr_vals(a@, b@, 0),
{
    let n = if a.len() < b.len() {
        a.len()
    } else {
        b.len()
    };
    let mut i: usize = 0;
    while i < n
        invariant
            n <= a@.len(),
            n <= b@.len(),
            n == a@.len() || n == b@.len(),
            i <= n,
            cmp_attr_vals(a@, b@, 0) == cmp_attr_vals(a@, b@, i as int),
        decreases n - i,
    {
        let c = str_cmp(a[i].1.as_str(), b[i].1.as_str());
        if !matches!(c, core::cmp::Ordering::Equal) {
            return c;
        }
        i += 1;
    }
    core::cmp::Ordering::Equal
}

/// Orders two live elements by the composite key.
pub fn ord_elem(d: &Document, a: Element, b: Element) -> (r: core::cmp::Ordering)
    requires
        d.wf(),
        d.is_element_key(a.0),
        d.is_element_key(b.0),
    ensures
        r == spec_ord_elem(*d, a.0, b.0),
{
    broadcast use crate::document::group_doc_bridge;

    let an = match d.arena.name(a.0) {
        Some(q) => q.prefixed_name(),
        None => {
            proof {
                assert(false);
            }
            ""
        },
    };
    let bn = match d.arena.name(b.0) {
        Some(q) => q.prefixed_name(),
        None => {
            proof {
                assert(false);
            }
            ""
        },
    };
    let c1 = str_cmp(an, bn);
    if !matches!(c1, core::cmp::Ordering::Equal) {
        return c1;
    }
    let aat = match d.arena.attrs(a.0) {
        Some(x) => x,
        None => {
            proof {
                assert(false);
            }
            return core::cmp::Ordering::Equal;
        },
    };
    let bat = match d.arena.attrs(b.0) {
        Some(x) => x,
        None => {
            proof {
                assert(false);
            }
            return core::cmp::Ordering::Equal;
        },
    };
    proof {
        reveal_strlit("id");
        assert("id"@ =~= id_name());
        crate::attrs::lemma_attr_key_index(aat@, id_name());
        crate::attrs::lemma_attr_key_index(bat@, id_name());
    }
    let aid = crate::attrs::find_attr(aat, "id");
    let bid = crate::attrs::find_attr(bat, "id");
    match (aid, bid) {
        (Some(ai), Some(bi)) => {
            let c2 = str_cmp(aat[ai].1.as_str(), bat[bi].1.as_str());
            if !matches!(c2, core::cmp::Ordering::Equal) {
                return c2;
            }
        },
        _ => {},
    }
    let c3 = cmp_attr_names_exec(aat, bat);
    if !matches!(c3, core::cmp::Ordering::Equal) {
        return c3;
    }
    if aat.len() < bat.len() {
        return core::cmp::Ordering::Less;
    }
    if aat.len() > bat.len() {
        return core::cmp::Ordering::Greater;
    }
    cmp_attr_vals_exec(aat, bat)
}

/// A greater outcome flips to a lesser one with the arguments swapped.
proof fn lemma_lex_cmp_flip(a: Seq<char>, b: Seq<char>)
    ensures
        (lex_cmp(a, b) == core::cmp::Ordering::Greater) <==> (lex_cmp(b, a)
            == core::cmp::Ordering::Less),
        (lex_cmp(a, b) == core::cmp::Ordering::Equal) <==> (lex_cmp(b, a)
            == core::cmp::Ordering::Equal),
    decreases a.len(),
{
    if a.len() > 0 && b.len() > 0 && !((a[0] as u32) < (b[0] as u32)) && !((a[0] as u32) > (
    b[0] as u32)) {
        lemma_lex_cmp_flip(a.drop_first(), b.drop_first());
    }
}

proof fn lemma_cmp_attr_names_flip(a: Seq<(QName, String)>, b: Seq<(QName, String)>, i: int)
    ensures
        (cmp_attr_names(a, b, i) == core::cmp::Ordering::Greater) <==> (cmp_attr_names(b, a, i)
            == core::cmp::Ordering::Less),
        (cmp_attr_names(a, b, i) == core::cmp::Ordering::Equal) <==> (cmp_attr_names(b, a, i)
            == core::cmp::Ordering::Equal),
    decreases a.len() - i,
{
    if 0 <= i && i < a.len() && i < b.len() {
        lemma_lex_cmp_flip(a[i].0@, b[i].0@);
        if lex_cmp(a[i].0@, b[i].0@) == core::cmp::Ordering::Equal {
            lemma_cmp_attr_names_flip(a, b, i + 1);
        }
    }
}

proof fn lemma_cmp_attr_vals_flip(a: Seq<(QName, String)>, b: Seq<(QName, String)>, i: int)
    ensures
        (cmp_attr_vals(a, b, i) == core::cmp::Ordering::Greater) <==> (cmp_attr_vals(b, a, i)
            == core::cmp::Ordering::Less),
        (cmp_attr_vals(a, b, i) == core::cmp::Ordering::Equal) <==> (cmp_attr_vals(b, a, i)
            == core::cmp::Ordering::Equal),
    decreases a.len() - i,
{
    if 0 <= i && i < a.len() && i < b.len() {
        lemma_lex_cmp_flip(a[i].1@, b[i].1@);
        if lex_cmp(a[i].1@, b[i].1@) == core::cmp::Ordering::Equal {
            lemma_cmp_attr_vals_flip(a, b, i + 1);
        }
    }
}

/// The composite key flips: what orders strictly one way orders strictly the
/// other way with the sides swapped.
pub proof fn lemma_ord_elem_flip(d: Document, a: DocKey, b: DocKey)
    ensures
        (spec_ord_elem(d, a, b) == core::cmp::Ordering::Greater) <==> (spec_ord_elem(d, b, a)
            == core::cmp::Ordering::Less),
{
    lemma_lex_cmp_flip(d.name_of(a)@, d.name_of(b)@);
    match (attr_lookup(d.attrs_of(a), id_name()), attr_lookup(d.attrs_of(b), id_name())) {
        (Some(va), Some(vb)) => {
            lemma_lex_cmp_flip(va, vb);
        },
        _ => {},
    }
    lemma_cmp_attr_names_flip(d.attrs_of(a), d.attrs_of(b), 0);
    lemma_cmp_attr_vals_flip(d.attrs_of(a), d.attrs_of(b), 0);
}

/// Strictness of the lexicographic order carries over a non-greater right
/// extension.
proof fn lemma_lex_cmp_trans(a: Seq<char>, b: Seq<char>, c: Seq<char>)
    requires
        lex_cmp(a, b) != core::cmp::Ordering::Greater,
        lex_cmp(b, c) != core::cmp::Ordering::Greater,
    ensures
        lex_cmp(a, c) != core::cmp::Ordering::Greater,
    decreases a.len() + b.len() + c.len(),
{
    if a.len() > 0 && b.len() > 0 && c.len() > 0 {
        if (a[0] as u32) == (b[0] as u32) && (b[0] as u32) == (c[0] as u32) {
            lemma_lex_cmp_trans(a.drop_first(), b.drop_first(), c.drop_first());
        }
    }
}

/// The table's names are in lexicographic order.
pub open spec fn attrs_name_sorted(attrs: Seq<(QName, String)>) -> bool {
    forall|i: int, j: int|
        0 <= i < j < attrs.len() ==> lex_cmp((#[trigger] attrs[i]).0@, (#[trigger] attrs[j]).0@)
            != core::cmp::Ordering::Greater
}

/// Sorts an attribute table by name, keeping exactly the same entries.
pub(crate) fn sort_attr_table(v: &Vec<(QName, String)>) -> (r: Vec<(QName, String)>)
    requires
        attrs_wf(v@),
    ensures
        r@.to_multiset() == v@.to_multiset(),
        attrs_name_sorted(r@),
        attrs_wf(r@),
{
    let mut out: Vec<(QName, String)> = Vec::new();
    let mut j: usize = 0;
    while j < v.len()
        invariant
            j <= v@.len(),
            attrs_wf(v@),
            out@.to_multiset() == v@.take(j as int).to_multiset(),
            attrs_name_sorted(out@),
            attrs_wf(out@),
            forall|q: int| 0 <= q < out@.len() ==> v@.take(j as int).contains(#[trigger] out@[q]),
        decreases v@.len() - j,
    {
        let x = (v[j].0.clone(), v[j].1.clone());
        proof {
            assert(x == v@[j as int]);
        }
        // Find the first entry strictly greater than the new name; inserting
        // there keeps the order and is stable.
        let mut p: usize = 0;
        while p < out.len() && !matches!(
            str_cmp(out[p].0.prefixed_name(), x.0.prefixed_name()),
            core::cmp::Ordering::Greater,
        )
            invariant
                p <= out@.len(),
                forall|q: int|
                    0 <= q < p ==> lex_cmp((#[trigger] out@[q]).0@, x.0@)
                        != core::cmp::Ordering::Greater,
            decreases out@.len() - p,
        {
            p += 1;
        }
        let ghost out0 = out@;
        out.insert(p, x);
        proof {
            let ghost outn = out@;
            assert(outn == out0.insert(p as int, x));
            assert(outn.remove(p as int) =~= out0);
            assert(outn[p as int] == x);
            assert(outn.to_multiset().count(x) > 0) by {
                assert(outn.contains(x));
            }
            assert(outn.to_multiset() =~= out0.to_multiset().insert(x)) by {
                assert(outn.remove(p as int).to_multiset() =~= outn.to_multiset().remove(x));
            }
            assert(v@.take(j + 1).drop_last() =~= v@.take(j as int));
            assert(v@.take(j + 1).last() == v@[j as int]);
            assert(v@.take(j + 1) =~= v@.take(j as int).push(x));
            assert(v@.take(j + 1).to_multiset() =~= v@.take(j as int).to_multiset().insert(x));
            // Order: entries before p are not greater; entries from p on are
            // strictly greater, and lexicographic order is transitive.
            if p < out0.len() {
                lemma_lex_cmp_flip(out0[p as int].0@, x.0@);
            }
            assert forall|i2: int, j2: int|
                0 <= i2 < j2 < outn.len() implies lex_cmp(
                (#[trigger] outn[i2]).0@,
                (#[trigger] outn[j2]).0@,
            ) != core::cmp::Ordering::Greater by {
                let oi = if i2 < p {
                    i2
                } else {
                    i2 - 1
                };
                let oj = if j2 < p {
                    j2
                } else {
                    j2 - 1
                };
                if i2 == p {
                    assert(outn[i2] == x);
                    assert(outn[j2] == out0[oj]);
                    assert(lex_cmp(out0[p as int].0@, x.0@) == core::cmp::Ordering::Greater);
                    lemma_lex_cmp_flip(x.0@, out0[p as int].0@);
                    if oj > p {
                        lemma_lex_cmp_trans(x.0@, out0[p as int].0@, out0[oj].0@);
                    }
                } else if j2 == p {
                    assert(outn[j2] == x);
                    assert(outn[i2] == out0[oi]);
                } else {
                    assert(outn[i2] == out0[oi]);
                    assert(outn[j2] == out0[oj]);
                }
            }
            // Key distinctness: every entry came from the input, whose keys
            // are pairwise distinct.
            assert forall|q: int| 0 <= q < outn.len() implies v@.take(j + 1).contains(
                #[trigger] outn[q],
            ) by {
                if q == p {
                    assert(v@.take(j + 1)[j as int] == x);
                } else {
                    let oq = if q < p {
                        q
                    } else {
                        q - 1
                    };
                    assert(out0[oq] == outn[q]);
                    assert(v@.take(j as int).contains(out0[oq]));
                    let w = choose|w: int|
                        0 <= w < j && #[trigger] v@.take(j as int)[w] == out0[oq];
                    assert(v@.take(j + 1)[w] == out0[oq]);
                }
            }
            assert forall|i2: int, j2: int|
                0 <= i2 < j2 < outn.len() implies (#[trigger] outn[i2]).0@ != (
            #[trigger] outn[j2]).0@ by {
                let w1 = choose|w: int| 0 <= w < j + 1 && #[trigger] v@.take(j + 1)[w] == outn[i2];
                let w2 = choose|w: int| 0 <= w < j + 1 && #[trigger] v@.take(j + 1)[w] == outn[j2];
                assert(v@[w1] == outn[i2]);
                assert(v@[w2] == outn[j2]);
                if w1 == w2 {
                    assert(outn[i2] == outn[j2]);
                    assert(outn.no_duplicates()) by {
                        assert(outn.to_multiset() =~= v@.take(j + 1).to_multiset());
                        assert(v@.take(j + 1).no_duplicates()) by {
                            assert forall|q1: int, q2: int|
                                0 <= q1 < q2 < j + 1 implies #[trigger] v@.take(j + 1)[q1] != (
                            #[trigger] v@.take(j + 1)[q2]) by {
                                assert(v@.take(j + 1)[q1] == v@[q1]);
                                assert(v@.take(j + 1)[q2] == v@[q2]);
                                assert(v@[q1].0@ != v@[q2].0@);
                            }
                        }
                        v@.take(j + 1).lemma_multiset_has_no_duplicates();
                        outn.lemma_multiset_has_no_duplicates_conv();
                    }
                    assert(false);
                } else {
                    let a1 = if w1 < w2 {
                        w1
                    } else {
                        w2
                    };
                    let a2 = if w1 < w2 {
                        w2
                    } else {
                        w1
                    };
                    assert(v@[a1].0@ != v@[a2].0@);
                }
            }
        }
        j += 1;
    }
    proof {
        assert(v@.take(v@.len() as int) =~= v@);
    }
    out
}

/// Whether the list holds a text node.
pub open spec fn spec_has_text_node(kids: Seq<Node>) -> bool {
    exists|i: int| 0 <= i < kids.len() && (#[trigger] kids[i]) is Text
}

/// Whether the list holds an element node.
pub open spec fn spec_has_element(kids: Seq<Node>) -> bool {
    exists|i: int| 0 <= i < kids.len() && (#[trigger] kids[i]) is Element
}

/// Mixed inline content: text and elements side by side must keep their
/// order.
pub open spec fn mixed_content(kids: Seq<Node>) -> bool {
    spec_has_text_node(kids) && spec_has_element(kids)
}

/// The nodes of a run of attached groups: each context with its element.
pub open spec fn groups_ms(gs: Seq<(Vec<Node>, Node)>) -> vstd::multiset::Multiset<Node>
    decreases gs.len(),
{
    if gs.len() == 0 {
        vstd::multiset::Multiset::empty()
    } else {
        groups_ms(gs.drop_last()).add(gs.last().0@.to_multiset().insert(gs.last().1))
    }
}

proof fn lemma_groups_ms_insert(gs: Seq<(Vec<Node>, Node)>, p: int, g: (Vec<Node>, Node))
    requires
        0 <= p <= gs.len(),
    ensures
        groups_ms(gs.insert(p, g)) == groups_ms(gs).add(g.0@.to_multiset().insert(g.1)),
    decreases gs.len(),
{
    let gn = gs.insert(p, g);
    if p == gs.len() {
        assert(gn.drop_last() =~= gs);
        assert(gn.last() == g);
    } else {
        assert(gn.drop_last() =~= gs.drop_last().insert(p, g));
        assert(gn.last() == gs.last());
        lemma_groups_ms_insert(gs.drop_last(), p, g);
        assert(groups_ms(gn) =~= groups_ms(gs).add(g.0@.to_multiset().insert(g.1))) by {
            assert(groups_ms(gn) == groups_ms(gn.drop_last()).add(
                gn.last().0@.to_multiset().insert(gn.last().1),
            ));
        }
    }
}

/// Copies a list of nodes into ordinal order.
fn sort_by_ordinal(v: &Vec<Node>) -> (r: Vec<Node>)
    ensures
        r@.to_multiset() == v@.to_multiset(),
        forall|i: int, j: int|
            0 <= i < j < r@.len() ==> (#[trigger] r@[i]).spec_ordinal() <= (
            #[trigger] r@[j]).spec_ordinal(),
{
    let mut out: Vec<Node> = Vec::new();
    let mut j: usize = 0;
    while j < v.len()
        invariant
            j <= v@.len(),
            out@.to_multiset() == v@.take(j as int).to_multiset(),
            forall|a: int, b: int|
                0 <= a < b < out@.len() ==> (#[trigger] out@[a]).spec_ordinal() <= (
                #[trigger] out@[b]).spec_ordinal(),
        decreases v@.len() - j,
    {
        let x = v[j];
        let mut p: usize = 0;
        while p < out.len() && !matches!(ord_node(&out[p], &x), core::cmp::Ordering::Greater)
            invariant
                p <= out@.len(),
                forall|q: int| 0 <= q < p ==> (#[trigger] out@[q]).spec_ordinal() <= x.spec_ordinal(),
            decreases out@.len() - p,
        {
            p += 1;
        }
        let ghost out0 = out@;
        out.insert(p, x);
        proof {
            let outn = out@;
            assert(outn.remove(p as int) =~= out0);
            assert(outn.to_multiset().count(x) > 0) by {
                assert(outn[p as int] == x);
                assert(outn.contains(x));
            }
            assert(outn.to_multiset() =~= out0.to_multiset().insert(x)) by {
                assert(outn.remove(p as int).to_multiset() =~= outn.to_multiset().remove(x));
            }
            assert(v@.take(j + 1) =~= v@.take(j as int).push(x));
            assert forall|a: int, b: int|
                0 <= a < b < outn.len() implies (#[trigger] outn[a]).spec_ordinal() <= (
            #[trigger] outn[b]).spec_ordinal() by {
                let oa = if a < p {
                    a
                } else {
                    a - 1
                };
                let ob = if b < p {
                    b
                } else {
                    b - 1
                };
                if a == p {
                    assert(outn[b] == out0[ob]);
                } else if b == p {
                    assert(outn[a] == out0[oa]);
                } else {
                    assert(outn[a] == out0[oa]);
                    assert(outn[b] == out0[ob]);
                }
            }
        }
        j += 1;
    }
    proof {
        assert(v@.take(v@.len() as int) =~= v@);
    }
    out
}

/// Appends a copy of every node of `src`.
fn extend_nodes(out: &mut Vec<Node>, src: &Vec<Node>)
    ensures
        final(out)@ == old(out)@ + src@,
{
    let mut i: usize = 0;
    while i < src.len()
        invariant
            i <= src@.len(),
            out@ == old(out)@ + src@.take(i as int),
        decreases src@.len() - i,
    {
        out.push(src[i]);
        proof {
            assert(src@.take(i + 1) =~= src@.take(i as int).push(src@[i as int]));
        }
        i += 1;
    }
    proof {
        assert(src@.take(src@.len() as int) =~= src@);
    }
}

/// The handle under an element-kind node.
fn elem_of(n: Node) -> (r: Element)
    requires
        n is Element,
    ensures
        n == Node::Element(r),
{
    match n {
        Node::Element(e) => e,
        _ => Element(crate::key::DocKey { idx: 0, gen: 0 }),
    }
}

proof fn lemma_groups_ms_first(gs: Seq<(Vec<Node>, Node)>)
    requires
        gs.len() > 0,
    ensures
        groups_ms(gs) == gs[0].0@.to_multiset().insert(gs[0].1).add(groups_ms(gs.drop_first())),
    decreases gs.len(),
{
    broadcast use vstd::multiset::group_multiset_axioms;

    if gs.len() == 1 {
        assert(gs.drop_first() =~= Seq::<(Vec<Node>, Node)>::empty());
        assert(gs.drop_last() =~= Seq::<(Vec<Node>, Node)>::empty());
        assert(groups_ms(gs) =~= gs[0].0@.to_multiset().insert(gs[0].1).add(
            groups_ms(gs.drop_first()),
        ));
    } else {
        lemma_groups_ms_first(gs.drop_last());
        assert(gs.drop_last()[0] == gs[0]);
        assert(gs.drop_last().drop_first() =~= gs.drop_first().drop_last());
        assert(gs.drop_first().last() == gs.last());
        assert(groups_ms(gs) =~= gs[0].0@.to_multiset().insert(gs[0].1).add(
            groups_ms(gs.drop_first()),
        ));
    }
}

/// Sorts one sibling list into the canonical order: a list mixing text and
/// element nodes is inline markup and comes back verbatim, as does a list
/// shorter than two. Otherwise comments, CDATA sections and doctypes attach
/// to the element that follows them; elements order by the composite key,
/// stably; each attached context, the trailing context, and the group of
/// text and processing-instruction nodes order by original appearance, the
/// last two groups closing the list. Exactly the given nodes come back.
pub(crate) fn sort_siblings(d: &Document, list: &Vec<Node>) -> (r: Vec<Node>)
    requires
        d.wf(),
        forall|i: int|
            0 <= i < list@.len() ==> ((#[trigger] list@[i]) is Element ==> d.is_element_key(
                list@[i].spec_as_key(),
            )),
    ensures
        r@.to_multiset() == list@.to_multiset(),
        list@.len() < 2 ==> r@ == list@,
        mixed_content(list@) ==> r@ == list@,
{
    broadcast use crate::document::group_doc_bridge, vstd::multiset::group_multiset_axioms;

    if list.len() < 2 {
        return crate::value::clone_nodes(list);
    }
    let mut has_text = false;
    let mut has_elem = false;
    let mut i: usize = 0;
    while i < list.len()
        invariant
            i <= list@.len(),
            has_text == exists|q: int| 0 <= q < i && (#[trigger] list@[q]) is Text,
            has_elem == exists|q: int| 0 <= q < i && (#[trigger] list@[q]) is Element,
        decreases list@.len() - i,
    {
        match list[i] {
            Node::Text(_) => {
                has_text = true;
            },
            Node::Element(_) => {
                has_elem = true;
            },
            _ => {},
        }
        i += 1;
    }
    if has_text && has_elem {
        proof {
            assert(mixed_content(list@));
        }
        return crate::value::clone_nodes(list);
    }
    proof {
        assert(!mixed_content(list@));
    }
    let mut groups: Vec<(Vec<Node>, Node)> = Vec::new();
    let mut trail: Vec<Node> = Vec::new();
    let mut post: Vec<Node> = Vec::new();
    let mut i: usize = 0;
    while i < list.len()
        invariant
            i <= list@.len(),
            groups_ms(groups@).add(trail@.to_multiset()).add(post@.to_multiset()) == list@.take(
                i as int,
            ).to_multiset(),
            forall|q: int|
                0 <= q < groups@.len() ==> (#[trigger] groups@[q]).1 is Element
                    && d.is_element_key(groups@[q].1.spec_as_key()),
            forall|i2: int|
                0 <= i2 < list@.len() ==> ((#[trigger] list@[i2]) is Element
                    ==> d.is_element_key(list@[i2].spec_as_key())),
        decreases list@.len() - i,
    {
        let n = list[i];
        let ghost g0 = groups@;
        let ghost t0 = trail@;
        match n {
            Node::Element(_) => {
                let mut ctx: Vec<Node> = Vec::new();
                core::mem::swap(&mut ctx, &mut trail);
                groups.push((ctx, n));
                proof {
                    assert(groups@.drop_last() =~= g0);
                    assert(groups@.last().0@ == t0);
                    assert(groups@.last().1 == n);
                    assert(trail@ =~= Seq::<Node>::empty());
                    assert(trail@.to_multiset() =~= vstd::multiset::Multiset::<Node>::empty());
                    assert(groups_ms(groups@).add(trail@.to_multiset()).add(post@.to_multiset())
                        =~= groups_ms(g0).add(t0.to_multiset()).add(post@.to_multiset()).insert(n));
                }
            },
            Node::Text(_) => {
                post.push(n);
            },
            Node::ProcessingInstruction(_) => {
                post.push(n);
            },
            _ => {
                trail.push(n);
            },
        }
        proof {
            assert(list@.take(i + 1) =~= list@.take(i as int).push(n));
            assert(list@.take(i + 1).to_multiset() =~= list@.take(
                i as int,
            ).to_multiset().insert(n));
            assert(groups_ms(groups@).add(trail@.to_multiset()).add(post@.to_multiset())
                =~= list@.take(i + 1).to_multiset());
        }
        i += 1;
    }
    proof {
        assert(list@.take(list@.len() as int) =~= list@);
    }
    let ghost total = list@.to_multiset();
    // Stable insertion sort of the groups by the composite key of their
    // elements: each group goes after every group not strictly greater.
    let mut rest = groups;
    let mut sorted: Vec<(Vec<Node>, Node)> = Vec::new();
    while rest.len() > 0
        invariant
            d.wf(),
            groups_ms(sorted@).add(groups_ms(rest@)).add(trail@.to_multiset()).add(
                post@.to_multiset(),
            ) == total,
            forall|q: int|
                0 <= q < rest@.len() ==> (#[trigger] rest@[q]).1 is Element && d.is_element_key(
                    rest@[q].1.spec_as_key(),
                ),
            forall|q: int|
                0 <= q < sorted@.len() ==> (#[trigger] sorted@[q]).1 is Element
                    && d.is_element_key(sorted@[q].1.spec_as_key()),
        decreases rest@.len(),
    {
        let ghost rest0 = rest@;
        let g = rest.remove(0);
        proof {
            lemma_groups_ms_first(rest0);
            assert(rest@ =~= rest0.drop_first());
        }
        let ge = elem_of(g.1);
        let mut p: usize = 0;
        while p < sorted.len() && !matches!(
            ord_elem(d, elem_of(sorted[p].1), ge),
            core::cmp::Ordering::Greater,
        )
            invariant
                d.wf(),
                p <= sorted@.len(),
                d.is_element_key(ge.0),
                forall|q: int|
                    0 <= q < sorted@.len() ==> (#[trigger] sorted@[q]).1 is Element
                        && d.is_element_key(sorted@[q].1.spec_as_key()),
            decreases sorted@.len() - p,
        {
            p += 1;
        }
        let ghost s0 = sorted@;
        sorted.insert(p, g);
        proof {
            lemma_groups_ms_insert(s0, p as int, g);
        }
    }
    // Emit: each group's context in appearance order, then its element; then
    // the trailing context; then the text and processing-instruction nodes.
    let mut out: Vec<Node> = Vec::new();
    let mut rest = sorted;
    while rest.len() > 0
        invariant
            out@.to_multiset().add(groups_ms(rest@)).add(trail@.to_multiset()).add(
                post@.to_multiset(),
            ) == total,
        decreases rest@.len(),
    {
        let ghost rest0 = rest@;
        let ghost out0 = out@;
        let g = rest.remove(0);
        proof {
            lemma_groups_ms_first(rest0);
            assert(rest@ =~= rest0.drop_first());
        }
        let ctx = sort_by_ordinal(&g.0);
        extend_nodes(&mut out, &ctx);
        out.push(g.1);
        proof {
            assert(out@ =~= (out0 + ctx@).push(g.1));
            assert((out0 + ctx@).to_multiset() =~= out0.to_multiset().add(ctx@.to_multiset()))
                by {
                lemma_multiset_commutative(out0, ctx@);
            }
            assert(out@.to_multiset() =~= out0.to_multiset().add(g.0@.to_multiset()).insert(g.1));
        }
    }
    let trail_sorted = sort_by_ordinal(&trail);
    let ghost out1 = out@;
    extend_nodes(&mut out, &trail_sorted);
    proof {
        lemma_multiset_commutative(out1, trail_sorted@);
    }
    let post_sorted = sort_by_ordinal(&post);
    let ghost out2 = out@;
    extend_nodes(&mut out, &post_sorted);
    proof {
        lemma_multiset_commutative(out2, post_sorted@);
        assert(groups_ms(Seq::<(Vec<Node>, Node)>::empty())
            =~= vstd::multiset::Multiset::<Node>::empty());
        assert(out@.to_multiset() =~= total);
    }
    out
}

/// A rearrangement of a duplicate-free list holds exactly its nodes, each
/// once.
proof fn lemma_perm_reorder_facts(a: Seq<Node>, b: Seq<Node>)
    requires
        a.to_multiset() == b.to_multiset(),
        forall|i: int, j: int| 0 <= i < j < a.len() ==> a[i] != a[j],
    ensures
        forall|i: int| 0 <= i < b.len() ==> a.contains(#[trigger] b[i]),
        forall|x: Node| a.contains(x) ==> b.contains(x),
        forall|i: int, j: int| #![trigger b[i], b[j]] 0 <= i < j < b.len() ==> b[i] != b[j],
{
    broadcast use vstd::seq_lib::group_to_multiset_ensures;

    assert forall|i: int| 0 <= i < b.len() implies a.contains(#[trigger] b[i]) by {
        assert(b.contains(b[i]));
        assert(b.to_multiset().count(b[i]) > 0);
    }
    assert forall|x: Node| a.contains(x) implies b.contains(x) by {
        assert(a.to_multiset().count(x) > 0);
    }
    assert(a.no_duplicates()) by {
        assert(forall|i: int, j: int|
            0 <= i < a.len() && 0 <= j < a.len() && i != j ==> a[i] != a[j]);
    }
    a.lemma_multiset_has_no_duplicates();
    b.lemma_multiset_has_no_duplicates_conv();
    assert(b.no_duplicates());
}

impl Document {
    /// Canonicalizes the document in place. Attribute tables are sorted by
    /// name always; with `elements` set, every element's children and the
    /// lists around the root are also sorted into the canonical sibling
    /// order. Tree shape, node content, names and attribute values are
    /// untouched; a children list mixing text and element nodes keeps its
    /// order; a rearranged list holds exactly the nodes it held.
    #[verifier::rlimit(100)]
    #[verifier::spinoff_prover]
    pub fn sort(&mut self, elements: bool)
        requires
            old(self).wf(),
        ensures
            final(self).wf(),
            final(self).spec_root() == old(self).spec_root(),
            final(self).spec_decl() == old(self).spec_decl(),
            forall|k: DocKey| #[trigger] final(self).live(k) == old(self).live(k),
            forall|k: DocKey|
                #[trigger] old(self).live(k) ==> {
                    &&& final(self).attrs_of(k).to_multiset() == old(self).attrs_of(
                        k,
                    ).to_multiset()
                    &&& attrs_name_sorted(final(self).attrs_of(k))
                    &&& final(self).parent_of(k) == old(self).parent_of(k)
                    &&& final(self).is_element_key(k) == old(self).is_element_key(k)
                    &&& (old(self).is_element_key(k) ==> final(self).name_of(k) == old(
                        self,
                    ).name_of(k))
                },
            !elements ==> {
                &&& forall|k: DocKey|
                    #[trigger] old(self).live(k) ==> final(self).value_of(k) == old(
                        self,
                    ).value_of(k)
                &&& final(self).spec_before() == old(self).spec_before()
                &&& final(self).spec_after() == old(self).spec_after()
            },
            elements ==> forall|k: DocKey|
                #[trigger] old(self).is_element_key(k) ==> {
                    &&& final(self).children_of(k).to_multiset() == old(self).children_of(
                        k,
                    ).to_multiset()
                    &&& (mixed_content(old(self).children_of(k)) ==> final(self).children_of(k)
                        == old(self).children_of(k))
                    &&& (old(self).children_of(k).len() < 2 ==> final(self).children_of(k) == old(
                        self,
                    ).children_of(k))
                },
            elements ==> {
                &&& final(self).spec_before().to_multiset() == old(
                    self,
                ).spec_before().to_multiset()
                &&& final(self).spec_after().to_multiset() == old(self).spec_after().to_multiset()
            },
    {
        broadcast use crate::document::group_doc_bridge, crate::arena::lemma_arena_name_of, crate::arena::lemma_arena_children_of;

        let ghost d0 = *self;
        // Attribute pass: always, and before the sibling pass, whose
        // element key compares attribute tables position by position.
        let n = self.arena.slot_count_keys();
        let mut i: usize = 0;
        while i < n
            invariant
                self.wf(),
                self.spec_root() == d0.spec_root(),
                self.spec_decl() == d0.spec_decl(),
                self.spec_before() == d0.spec_before(),
                self.spec_after() == d0.spec_after(),
                forall|k: DocKey| #[trigger] self.live(k) == d0.live(k),
                forall|k: DocKey|
                    #[trigger] d0.live(k) ==> (self.value_of(k) == d0.value_of(k)
                        && self.parent_of(k) == d0.parent_of(k)),
                forall|k: DocKey|
                    #[trigger] d0.live(k) && k.idx < i ==> (self.attrs_of(k).to_multiset()
                        == d0.attrs_of(k).to_multiset() && attrs_name_sorted(self.attrs_of(k))),
                forall|k: DocKey|
                    #[trigger] d0.live(k) && k.idx >= i ==> self.attrs_of(k) == d0.attrs_of(k),
                forall|k: DocKey| #[trigger] d0.live(k) ==> k.idx < n,
            decreases n - i,
        {
            match self.arena.key_at(i) {
                Some(k) => {
                    let is_el = self.check_element(Element(k));
                    if is_el {
                        let sorted_tbl = {
                            let a = match self.arena.attrs(k) {
                                Some(a) => a,
                                None => {
                                    proof {
                                        crate::document::lemma_doc_is_element(*self, k);
                                        crate::document::lemma_doc_live(*self, k);
                                        assert(false);
                                    }
                                    return ;
                                },
                            };
                            proof {
                                crate::document::lemma_doc_wf(*self);
                                crate::document::lemma_doc_live(*self, k);
                                crate::document::lemma_doc_is_element(*self, k);
                                assert(self.inner_wf());
                                assert(self.arena.live(k));
                                assert(attrs_wf(self.arena.attrs_of(k)));
                            }
                            sort_attr_table(a)
                        };
                        let ghost dprev = *self;
                        self.arena.set_attrs(k, sorted_tbl);
                        proof {
                            assert(crate::arena::Arena::same_except(dprev.arena, self.arena, k));
                            assert forall|h: DocKey|
                                h != k implies (#[trigger] self.arena.live(h) == dprev.arena.live(
                                h,
                            ) && (dprev.arena.live(h) ==> self.arena.value_of(h)
                                == dprev.arena.value_of(h) && self.arena.parent_of(h)
                                == dprev.arena.parent_of(h) && self.arena.attrs_of(h)
                                == dprev.arena.attrs_of(h))) by {
                                assert(self.arena.live(h) == dprev.arena.live(h));
                            }
                            crate::document::lemma_doc_wf(dprev);
                            assert(dprev.inner_wf());
                            crate::document::lemma_set_attrs_only_wf(dprev, *self, Element(k));
                            assert forall|h: DocKey| h != k implies
                                crate::document::Document::unchanged_at(dprev, *self, h) by {
                                assert(self.arena.live(h) == dprev.arena.live(h));
                                crate::document::lemma_doc_live(dprev, h);
                                crate::document::lemma_doc_live(*self, h);
                                crate::document::lemma_doc_value(dprev, h);
                                crate::document::lemma_doc_value(*self, h);
                                crate::document::lemma_doc_parent(dprev, h);
                                crate::document::lemma_doc_parent(*self, h);
                                crate::document::lemma_doc_attrs(dprev, h);
                                crate::document::lemma_doc_attrs(*self, h);
                            }
                            crate::document::lemma_doc_attrs(*self, k);
                            crate::document::lemma_doc_live(*self, k);
                            crate::document::lemma_doc_wf(*self);
                            crate::document::lemma_doc_shell(*self);
                            crate::document::lemma_doc_shell(dprev);
                            assert(self.attrs_of(k) == sorted_tbl@);
                            crate::document::lemma_doc_value(*self, k);
                            crate::document::lemma_doc_value(dprev, k);
                            crate::document::lemma_doc_parent(*self, k);
                            crate::document::lemma_doc_parent(dprev, k);
                            assert(self.live(k) && dprev.live(k));
                            assert(self.value_of(k) == dprev.value_of(k));
                            assert(self.parent_of(k) == dprev.parent_of(k));
                            assert forall|h: DocKey| #[trigger] self.live(h) == d0.live(h) by {
                                if h != k {
                                    assert(crate::document::Document::unchanged_at(
                                        dprev,
                                        *self,
                                        h,
                                    ));
                                }
                            }
                            assert forall|h: DocKey| #[trigger] d0.live(h) implies (self.value_of(
                                h,
                            ) == d0.value_of(h) && self.parent_of(h) == d0.parent_of(h)) by {
                                if h != k {
                                    assert(crate::document::Document::unchanged_at(
                                        dprev,
                                        *self,
                                        h,
                                    ));
                                    assert(dprev.live(h));
                                }
                            }
                            assert forall|h: DocKey|
                                #[trigger] d0.live(h) && h.idx < i + 1 implies (self.attrs_of(
                                h,
                            ).to_multiset() == d0.attrs_of(h).to_multiset() && attrs_name_sorted(
                                self.attrs_of(h),
                            )) by {
                                if h == k {
                                    assert(d0.live(k));
                                    crate::document::lemma_doc_attrs(dprev, k);
                                    assert(dprev.attrs_of(k) == d0.attrs_of(k));
                                    assert(self.attrs_of(k).to_multiset() == dprev.attrs_of(
                                        k,
                                    ).to_multiset());
                                } else if h.idx < i {
                                    assert(crate::document::Document::unchanged_at(
                                        dprev,
                                        *self,
                                        h,
                                    ));
                                    assert(dprev.live(h));
                                } else {
                                    assert(h.idx == i);
                                    assert(dprev.live(h) == d0.live(h));
                                    assert(dprev.live(h));
                                    crate::document::lemma_doc_live(dprev, h);
                                    assert(dprev.arena.live(h));
                                    crate::arena::Arena::lemma_key_at_live(dprev.arena, h);
                                    assert(dprev.arena.spec_key_at(h.idx as int) == Some(h));
                                    assert(dprev.arena.spec_key_at(i as int) == Some(k));
                                    assert(false);
                                }
                            }
                            assert forall|h: DocKey|
                                #[trigger] d0.live(h) && h.idx >= i + 1 implies self.attrs_of(h)
                                == d0.attrs_of(h) by {
                                assert(h != k);
                                assert(crate::document::Document::unchanged_at(dprev, *self, h));
                                assert(dprev.live(h));
                            }
                        }
                    } else {
                        proof {
                            crate::document::lemma_doc_wf(*self);
                            crate::document::lemma_doc_live(*self, k);
                            crate::document::lemma_doc_is_element(*self, k);
                            crate::document::lemma_doc_attrs(*self, k);
                            assert(self.inner_wf());
                            assert(self.arena.live(k));
                            assert(self.arena.attrs_of(k).len() == 0) by {
                                if self.arena.attrs_of(k).len() > 0 {
                                    assert(self.arena.is_element(k));
                                }
                            }
                            assert(self.attrs_of(k).to_multiset() =~= d0.attrs_of(
                                k,
                            ).to_multiset());
                            assert(attrs_name_sorted(self.attrs_of(k)));
                            assert forall|h: DocKey|
                                #[trigger] d0.live(h) && h.idx == i implies h == k by {
                                crate::document::lemma_doc_live(*self, h);
                                assert(self.arena.live(h));
                                crate::arena::Arena::lemma_key_at_live(self.arena, h);
                            }
                        }
                    }
                },
                None => {
                    proof {
                        assert(self.arena.spec_key_at(i as int) is None);
                        assert forall|k: DocKey| #[trigger] d0.live(k) && k.idx == i implies false
                            by {
                            assert(self.live(k) == d0.live(k));
                            crate::document::lemma_doc_live(*self, k);
                            assert(self.arena.live(k));
                            crate::arena::Arena::lemma_key_at_live(self.arena, k);
                            assert(self.arena.spec_key_at(k.idx as int) == Some(k));
                        }
                    }
                },
            }
            i += 1;
        }
        let ghost d1 = *self;
        proof {
            assert forall|k: DocKey| #[trigger] d0.live(k) implies {
                &&& self.attrs_of(k).to_multiset() == d0.attrs_of(k).to_multiset()
                &&& attrs_name_sorted(self.attrs_of(k))
                &&& self.parent_of(k) == d0.parent_of(k)
                &&& self.is_element_key(k) == d0.is_element_key(k)
                &&& (d0.is_element_key(k) ==> self.name_of(k) == d0.name_of(k))
            } by {
                assert(k.idx < n);
                crate::document::lemma_value_determines(d0, *self, k);
            }
        }
        if !elements {
            return ;
        }
        // Sibling pass: every element's children, then the lists around the
        // root.
        let mut i: usize = 0;
        while i < n
            invariant
                elements,
                self.wf(),
                self.spec_root() == d1.spec_root(),
                self.spec_decl() == d1.spec_decl(),
                self.spec_before() == d1.spec_before(),
                self.spec_after() == d1.spec_after(),
                forall|k: DocKey| #[trigger] self.live(k) == d1.live(k),
                forall|k: DocKey|
                    #[trigger] d1.live(k) ==> (self.parent_of(k) == d1.parent_of(k)
                        && self.attrs_of(k) == d1.attrs_of(k) && self.is_element_key(k)
                        == d1.is_element_key(k)),
                forall|k: DocKey|
                    #[trigger] d1.is_element_key(k) ==> self.name_of(k) == d1.name_of(k),
                forall|k: DocKey|
                    #[trigger] d1.live(k) && !d1.is_element_key(k) ==> self.value_of(k)
                        == d1.value_of(k),
                forall|k: DocKey|
                    #[trigger] d1.is_element_key(k) && k.idx < i ==> (self.children_of(
                        k,
                    ).to_multiset() == d1.children_of(k).to_multiset() && (mixed_content(
                        d1.children_of(k),
                    ) ==> self.children_of(k) == d1.children_of(k)) && (d1.children_of(k).len()
                        < 2 ==> self.children_of(k) == d1.children_of(k))),
                forall|k: DocKey|
                    #[trigger] d1.is_element_key(k) && k.idx >= i ==> self.children_of(k)
                        == d1.children_of(k),
                forall|k: DocKey| #[trigger] d1.live(k) ==> k.idx < n,
            decreases n - i,
        {
            match self.arena.key_at(i) {
                Some(k) => {
                    let is_el = self.check_element(Element(k));
                    if is_el {
                        let sorted_kids = {
                            let kids = match self.arena.children(k) {
                                Some(c) => c,
                                None => {
                                    proof {
                                        crate::document::lemma_doc_is_element(*self, k);
                                        assert(false);
                                    }
                                    return ;
                                },
                            };
                            proof {
                                crate::document::lemma_doc_wf(*self);
                                crate::document::lemma_doc_is_element(*self, k);
                                crate::document::lemma_doc_children(*self, k);
                                assert(self.inner_wf());
                                assert forall|q: int|
                                    0 <= q < kids@.len() implies ((#[trigger] kids@[q]) is Element
                                    ==> self.is_element_key(kids@[q].spec_as_key())) by {
                                    assert(self.arena.children_of(k)[q] == kids@[q]);
                                    if kids@[q] is Element {
                                        assert(self.handle_ok(kids@[q]));
                                        crate::document::lemma_doc_is_element(
                                            *self,
                                            kids@[q].spec_as_key(),
                                        );
                                    }
                                }
                            }
                            sort_siblings(self, kids)
                        };
                        let ghost dprev = *self;
                        let ghost kids0 = dprev.children_of(k);
                        self.arena.set_children(k, sorted_kids);
                        proof {
                            crate::document::lemma_doc_wf(dprev);
                            crate::document::lemma_doc_children(dprev, k);
                            crate::document::lemma_doc_is_element(dprev, k);
                            crate::document::lemma_doc_live(dprev, k);
                            assert forall|h: DocKey|
                                h != k implies (#[trigger] self.arena.live(h) == dprev.arena.live(
                                h,
                            ) && (dprev.arena.live(h) ==> self.arena.value_of(h)
                                == dprev.arena.value_of(h) && self.arena.parent_of(h)
                                == dprev.arena.parent_of(h) && self.arena.attrs_of(h)
                                == dprev.arena.attrs_of(h))) by {
                                assert(self.arena.live(h) == dprev.arena.live(h));
                            }
                            assert(self.arena.children_of(k) == sorted_kids@);
                            assert forall|a: int, b: int|
                                0 <= a < b < kids0.len() implies kids0[a] != kids0[b] by {
                                assert(dprev.arena.children_of(k)[a] == kids0[a]);
                                assert(dprev.arena.children_of(k)[b] == kids0[b]);
                            }
                            lemma_perm_reorder_facts(kids0, sorted_kids@);
                            assert(crate::document::reorder_shape(dprev, *self, Element(k))) by {
                                assert(self.arena.live(k) == dprev.arena.live(k));
                            }
                            crate::document::lemma_reorder_children_wf(dprev, *self, Element(k));
                            assert forall|h: DocKey| h != k implies
                                crate::document::Document::unchanged_at(dprev, *self, h) by {
                                assert(self.arena.live(h) == dprev.arena.live(h));
                                crate::document::lemma_doc_live(dprev, h);
                                crate::document::lemma_doc_live(*self, h);
                                crate::document::lemma_doc_value(dprev, h);
                                crate::document::lemma_doc_value(*self, h);
                                crate::document::lemma_doc_parent(dprev, h);
                                crate::document::lemma_doc_parent(*self, h);
                                crate::document::lemma_doc_attrs(dprev, h);
                                crate::document::lemma_doc_attrs(*self, h);
                            }
                            crate::document::lemma_doc_children(*self, k);
                            crate::document::lemma_doc_is_element(*self, k);
                            crate::document::lemma_doc_live(*self, k);
                            crate::document::lemma_doc_wf(*self);
                            crate::document::lemma_doc_shell(*self);
                            crate::document::lemma_doc_shell(dprev);
                            crate::document::lemma_doc_attrs(*self, k);
                            crate::document::lemma_doc_attrs(dprev, k);
                            crate::document::lemma_doc_parent(*self, k);
                            crate::document::lemma_doc_parent(dprev, k);
                            crate::document::lemma_doc_name(*self, k);
                            crate::document::lemma_doc_name(dprev, k);
                            crate::document::lemma_doc_is_element(dprev, k);
                            crate::document::lemma_doc_children(dprev, k);
                            assert(self.children_of(k) == sorted_kids@);
                            assert(dprev.children_of(k) == kids0);
                            assert forall|h: DocKey| #[trigger] self.live(h) == d1.live(h) by {
                                if h != k {
                                    assert(crate::document::Document::unchanged_at(
                                        dprev,
                                        *self,
                                        h,
                                    ));
                                }
                            }
                            assert forall|h: DocKey| #[trigger] d1.live(h) implies (self.parent_of(
                                h,
                            ) == d1.parent_of(h) && self.attrs_of(h) == d1.attrs_of(h)
                                && self.is_element_key(h) == d1.is_element_key(h)) by {
                                if h != k {
                                    assert(crate::document::Document::unchanged_at(
                                        dprev,
                                        *self,
                                        h,
                                    ));
                                    assert(dprev.live(h));
                                    crate::document::lemma_value_determines(dprev, *self, h);
                                }
                            }
                            assert forall|h: DocKey|
                                #[trigger] d1.is_element_key(h) implies self.name_of(h)
                                == d1.name_of(h) by {
                                if h != k {
                                    crate::document::lemma_doc_is_element(d1, h);
                                    crate::document::lemma_doc_live(d1, h);
                                    assert(d1.live(h));
                                    assert(crate::document::Document::unchanged_at(
                                        dprev,
                                        *self,
                                        h,
                                    ));
                                    crate::document::lemma_value_determines(dprev, *self, h);
                                }
                            }
                            assert forall|h: DocKey|
                                #[trigger] d1.live(h) && !d1.is_element_key(h) implies self.value_of(
                                h,
                            ) == d1.value_of(h) by {
                                if h != k {
                                    assert(crate::document::Document::unchanged_at(
                                        dprev,
                                        *self,
                                        h,
                                    ));
                                    assert(dprev.live(h));
                                }
                            }
                            assert forall|h: DocKey|
                                #[trigger] d1.is_element_key(h) && h.idx < i + 1 implies (self.children_of(
                                h,
                            ).to_multiset() == d1.children_of(h).to_multiset() && (mixed_content(
                                d1.children_of(h),
                            ) ==> self.children_of(h) == d1.children_of(h)) && (d1.children_of(
                                h,
                            ).len() < 2 ==> self.children_of(h) == d1.children_of(h))) by {
                                crate::document::lemma_doc_is_element(d1, h);
                                crate::document::lemma_doc_live(d1, h);
                                if h == k {
                                    assert(kids0 == d1.children_of(k));
                                } else if h.idx < i {
                                    assert(crate::document::Document::unchanged_at(
                                        dprev,
                                        *self,
                                        h,
                                    ));
                                    assert(dprev.live(h));
                                    crate::document::lemma_value_determines(dprev, *self, h);
                                } else {
                                    assert(h.idx == i);
                                    assert(d1.live(h));
                                    assert(dprev.live(h) == d1.live(h));
                                    assert(dprev.live(h));
                                    crate::document::lemma_doc_live(dprev, h);
                                    assert(dprev.arena.live(h));
                                    crate::arena::Arena::lemma_key_at_live(dprev.arena, h);
                                    assert(dprev.arena.spec_key_at(h.idx as int) == Some(h));
                                    assert(dprev.arena.spec_key_at(i as int) == Some(k));
                                    assert(false);
                                }
                            }
                            assert forall|h: DocKey|
                                #[trigger] d1.is_element_key(h) && h.idx >= i + 1 implies self.children_of(
                                h,
                            ) == d1.children_of(h) by {
                                assert(h != k);
                                crate::document::lemma_doc_is_element(d1, h);
                                crate::document::lemma_doc_live(d1, h);
                                assert(d1.live(h));
                                assert(crate::document::Document::unchanged_at(dprev, *self, h));
                                assert(dprev.live(h));
                                crate::document::lemma_value_determines(dprev, *self, h);
                            }
                        }
                    }
                },
                None => {
                    proof {
                        assert(self.arena.spec_key_at(i as int) is None);
                        assert forall|k: DocKey| #[trigger] d1.live(k) && k.idx == i implies false
                            by {
                            assert(self.live(k) == d1.live(k));
                            crate::document::lemma_doc_live(*self, k);
                            assert(self.arena.live(k));
                            crate::arena::Arena::lemma_key_at_live(self.arena, k);
                            assert(self.arena.spec_key_at(k.idx as int) == Some(k));
                        }
                    }
                },
            }
            i += 1;
        }
        // The lists around the root hold no elements, so their sort is the
        // ordinal order.
        let ghost d2 = *self;
        proof {
            crate::document::lemma_floating_members(*self);
        }
        let sorted_before = sort_siblings(self, &self.before);
        let sorted_after = sort_siblings(self, &self.after);
        let ghost b0 = self.before@;
        let ghost a0 = self.after@;
        self.before = sorted_before;
        self.after = sorted_after;
        proof {
            assert((self.before@ + self.after@).to_multiset() =~= (b0 + a0).to_multiset()) by {
                lemma_multiset_commutative(self.before@, self.after@);
                lemma_multiset_commutative(b0, a0);
            }
            crate::document::lemma_reorder_floating_wf(d2, *self);
            crate::document::lemma_doc_shell(*self);
            crate::document::lemma_doc_shell(d2);
            crate::document::lemma_doc_shell(d1);
            crate::document::lemma_doc_shell(d0);
            crate::document::lemma_doc_wf(*self);
            assert(self.spec_root() == d0.spec_root());
            assert(self.spec_decl() == d0.spec_decl());
            assert(self.spec_before().to_multiset() == d0.spec_before().to_multiset());
            assert(self.spec_after().to_multiset() == d0.spec_after().to_multiset());
            assert forall|k: DocKey| #[trigger] self.live(k) == d0.live(k) by {
                crate::document::lemma_doc_live(*self, k);
                crate::document::lemma_doc_live(d2, k);
            }
            assert forall|k: DocKey| #[trigger] d0.live(k) implies {
                &&& self.attrs_of(k).to_multiset() == d0.attrs_of(k).to_multiset()
                &&& attrs_name_sorted(self.attrs_of(k))
                &&& self.parent_of(k) == d0.parent_of(k)
                &&& self.is_element_key(k) == d0.is_element_key(k)
                &&& (d0.is_element_key(k) ==> self.name_of(k) == d0.name_of(k))
                &&& (d0.is_element_key(k) ==> {
                    &&& self.children_of(k).to_multiset() == d0.children_of(k).to_multiset()
                    &&& (mixed_content(d0.children_of(k)) ==> self.children_of(k)
                        == d0.children_of(k))
                    &&& (d0.children_of(k).len() < 2 ==> self.children_of(k) == d0.children_of(k))
                })
            } by {
                assert(k.idx < n);
                crate::document::lemma_doc_live(*self, k);
                crate::document::lemma_doc_live(d2, k);
                crate::document::lemma_doc_value(*self, k);
                crate::document::lemma_doc_value(d2, k);
                crate::document::lemma_doc_parent(*self, k);
                crate::document::lemma_doc_parent(d2, k);
                crate::document::lemma_doc_attrs(*self, k);
                crate::document::lemma_doc_attrs(d2, k);
                crate::document::lemma_doc_is_element(*self, k);
                crate::document::lemma_doc_is_element(d2, k);
                crate::document::lemma_doc_name(*self, k);
                crate::document::lemma_doc_name(d2, k);
                crate::document::lemma_doc_children(*self, k);
                crate::document::lemma_doc_children(d2, k);
                crate::document::lemma_value_determines(d0, d1, k);
                assert(d1.children_of(k) == d0.children_of(k));
            }
            assert forall|k: DocKey| #[trigger] d0.is_element_key(k) implies {
                &&& self.children_of(k).to_multiset() == d0.children_of(k).to_multiset()
                &&& (mixed_content(d0.children_of(k)) ==> self.children_of(k) == d0.children_of(
                    k,
                ))
                &&& (d0.children_of(k).len() < 2 ==> self.children_of(k) == d0.children_of(k))
            } by {
                crate::document::lemma_doc_is_element(d0, k);
                crate::document::lemma_doc_live(d0, k);
                assert(d0.live(k));
            }
        }
    }
}

/// Comparison is reflexive.
proof fn lemma_lex_cmp_refl(x: Seq<char>)
    ensures
        lex_cmp(x, x) == core::cmp::Ordering::Equal,
    decreases x.len(),
{
    if x.len() > 0 {
        lemma_lex_cmp_refl(x.drop_first());
    }
}

/// An equal comparison means equal sequences.
proof fn lemma_lex_cmp_equal_iff(a: Seq<char>, b: Seq<char>)
    requires
        lex_cmp(a, b) == core::cmp::Ordering::Equal,
    ensures
        a == b,
    decreases a.len(),
{
    if a.len() > 0 && b.len() > 0 {
        assert(!((a[0] as u32) < (b[0] as u32)));
        assert(!((a[0] as u32) > (b[0] as u32)));
        assert((a[0] as u32) == (b[0] as u32));
        vstd::utf8::char_u32_cast(a[0], a[0] as u32);
        vstd::utf8::char_u32_cast(b[0], b[0] as u32);
        assert(a[0] == b[0]);
        assert(lex_cmp(a.drop_first(), b.drop_first()) == core::cmp::Ordering::Equal);
        lemma_lex_cmp_equal_iff(a.drop_first(), b.drop_first());
        assert(a.drop_first().len() == b.drop_first().len());
        assert forall|p: int| 0 <= p < a.len() implies a[p] == b[p] by {
            if p > 0 {
                assert(a[p] == a.drop_first()[p - 1]);
                assert(b[p] == b.drop_first()[p - 1]);
            }
        }
        assert(a =~= b);
    } else if a.len() == 0 && b.len() == 0 {
        assert(a =~= b);
    } else {
        assert(false);
    }
}

/// The canonical attribute order is unique: two name-sorted tables with
/// pairwise-distinct keys holding the same entries are the same table.
/// Together with the attribute clauses of `sort`, this pins the sorted
/// table down: two documents whose tables differ only in insertion order
/// sort to identical tables, and sorting a second time returns the very
/// table the first sort produced.
pub proof fn lemma_canonical_attrs_unique(a: Seq<(QName, String)>, b: Seq<(QName, String)>)
    requires
        attrs_wf(a),
        attrs_wf(b),
        attrs_name_sorted(a),
        attrs_name_sorted(b),
        a.to_multiset() == b.to_multiset(),
    ensures
        a == b,
    decreases a.len(),
{
    broadcast use vstd::seq_lib::group_to_multiset_ensures;

    assert(a.len() == a.to_multiset().len());
    assert(b.len() == b.to_multiset().len());
    if a.len() == 0 {
        assert(b.len() == 0);
        assert(a =~= b);
    } else {
        assert(b.len() == a.len());
        assert(b.contains(a[0])) by {
            assert(a.contains(a[0]));
            assert(a.to_multiset().count(a[0]) > 0);
        }
        assert(a.contains(b[0])) by {
            assert(b.contains(b[0]));
            assert(b.to_multiset().count(b[0]) > 0);
        }
        let i = choose|i: int| 0 <= i < b.len() && b[i] == a[0];
        let j = choose|j: int| 0 <= j < a.len() && a[j] == b[0];
        assert(lex_cmp(b[0].0@, a[0].0@) != core::cmp::Ordering::Greater) by {
            if i > 0 {
                assert(lex_cmp(b[0].0@, b[i].0@) != core::cmp::Ordering::Greater);
            } else {
                lemma_lex_cmp_refl(a[0].0@);
            }
        }
        assert(lex_cmp(a[0].0@, b[0].0@) != core::cmp::Ordering::Greater) by {
            if j > 0 {
                assert(lex_cmp(a[0].0@, a[j].0@) != core::cmp::Ordering::Greater);
            } else {
                lemma_lex_cmp_refl(a[0].0@);
            }
        }
        assert(lex_cmp(a[0].0@, b[0].0@) == core::cmp::Ordering::Equal) by {
            lemma_lex_cmp_flip(a[0].0@, b[0].0@);
        }
        lemma_lex_cmp_equal_iff(a[0].0@, b[0].0@);
        assert(b[0] == a[0]) by {
            if i != 0 {
                assert(b[i].0@ != b[0].0@);
                assert(b[i] == a[0]);
            }
        }
        let at = a.drop_first();
        let bt = b.drop_first();
        assert(at.to_multiset() == bt.to_multiset()) by {
            assert(a.remove(0) =~= at);
            assert(b.remove(0) =~= bt);
            assert(a.remove(0).to_multiset() =~= a.to_multiset().remove(a[0]));
            assert(b.remove(0).to_multiset() =~= b.to_multiset().remove(b[0]));
        }
        assert(attrs_wf(at)) by {
            assert forall|p: int| 0 <= p < at.len() implies (#[trigger] at[p]).0.wf() by {
                assert(at[p] == a[p + 1]);
            }
            assert forall|p: int, q: int|
                0 <= p < q < at.len() implies (#[trigger] at[p]).0@ != (#[trigger] at[q]).0@ by {
                assert(at[p] == a[p + 1]);
                assert(at[q] == a[q + 1]);
            }
        }
        assert(attrs_wf(bt)) by {
            assert forall|p: int| 0 <= p < bt.len() implies (#[trigger] bt[p]).0.wf() by {
                assert(bt[p] == b[p + 1]);
            }
            assert forall|p: int, q: int|
                0 <= p < q < bt.len() implies (#[trigger] bt[p]).0@ != (#[trigger] bt[q]).0@ by {
                assert(bt[p] == b[p + 1]);
                assert(bt[q] == b[q + 1]);
            }
        }
        assert(attrs_name_sorted(at)) by {
            assert forall|p: int, q: int|
                0 <= p < q < at.len() implies lex_cmp(
                (#[trigger] at[p]).0@,
                (#[trigger] at[q]).0@,
            ) != core::cmp::Ordering::Greater by {
                assert(at[p] == a[p + 1]);
                assert(at[q] == a[q + 1]);
            }
        }
        assert(attrs_name_sorted(bt)) by {
            assert forall|p: int, q: int|
                0 <= p < q < bt.len() implies lex_cmp(
                (#[trigger] bt[p]).0@,
                (#[trigger] bt[q]).0@,
            ) != core::cmp::Ordering::Greater by {
                assert(bt[p] == b[p + 1]);
                assert(bt[q] == b[q + 1]);
            }
        }
        lemma_canonical_attrs_unique(at, bt);
        assert(a =~= b) by {
            assert(at == bt);
            assert forall|p: int| 0 <= p < a.len() implies a[p] == b[p] by {
                if p > 0 {
                    assert(a[p] == at[p - 1]);
                    assert(b[p] == bt[p - 1]);
                }
            }
        }
    }
}

} // verus!
