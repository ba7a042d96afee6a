//! Ordered attribute tables: an insertion-ordered mapping from qualified name
//! to value. An insert overwrites in place when the key is already present and
//! appends otherwise; duplicate keys in a freshly supplied table collapse to
//! the last value at the first occurrence's position.

use vstd::prelude::*;

use crate::qname::QName;
use crate::text::str_eq;

verus! {

/// The first position holding `key`, or -1.
pub open spec fn attr_key_index(attrs: Seq<(QName, String)>, key: Seq<char>) -> int
    decreases attrs.len(),
{
    if attrs.len() == 0 {
        -1
    } else if attrs[0].0@ == key {
        0
    } else {
        let r = attr_key_index(attrs.drop_first(), key);
        if r < 0 {
            -1
        } else {
            r + 1
        }
    }
}

/// The value under `key`, when present.
pub open spec fn attr_lookup(attrs: Seq<(QName, String)>, key: Seq<char>) -> Option<Seq<char>> {
    let i = attr_key_index(attrs, key);
    if i >= 0 {
        Some(attrs[i].1@)
    } else {
        None
    }
}

/// Insert-or-overwrite: an existing key keeps its position and takes the new
/// value; a new key goes to the end.
pub open spec fn attr_upsert(attrs: Seq<(QName, String)>, k: QName, v: String) -> Seq<
    (QName, String),
> {
    let i = attr_key_index(attrs, k@);
    if i >= 0 {
        attrs.update(i, (attrs[i].0, v))
    } else {
        attrs.push((k, v))
    }
}

/// The table a sequence of inserts builds up, left to right.
pub open spec fn dedup_attrs(attrs: Seq<(QName, String)>) -> Seq<(QName, String)>
    decreases attrs.len(),
{
    if attrs.len() == 0 {
        Seq::empty()
    } else {
        attr_upsert(dedup_attrs(attrs.drop_last()), attrs.last().0, attrs.last().1)
    }
}

/// What `attr_key_index` finds: the first occurrence.
pub proof fn lemma_attr_key_index(attrs: Seq<(QName, String)>, key: Seq<char>)
    ensures
        ({
            let i = attr_key_index(attrs, key);
            &&& (i == -1 ==> forall|j: int| 0 <= j < attrs.len() ==> (#[trigger] attrs[j].0)@ != key)
            &&& (i != -1 ==> 0 <= i < attrs.len() && attrs[i].0@ == key && forall|j: int|
                0 <= j < i ==> (#[trigger] attrs[j].0)@ != key)
        }),
    decreases attrs.len(),
{
    if attrs.len() > 0 && attrs[0].0@ != key {
        lemma_attr_key_index(attrs.drop_first(), key);
        assert(forall|j: int|
            1 <= j < attrs.len() ==> (#[trigger] attrs[j].0) == attrs.drop_first()[j - 1].0);
    }
}

/// An upsert with a well-formed key preserves well-formedness of the table.
pub proof fn lemma_attr_upsert_wf(attrs: Seq<(QName, String)>, k: QName, v: String)
    requires
        crate::document::attrs_wf(attrs),
        k.wf(),
    ensures
        crate::document::attrs_wf(attr_upsert(attrs, k, v)),
{
    lemma_attr_key_index(attrs, k@);
}

/// Deduplicating a table of well-formed keys yields a well-formed table.
pub proof fn lemma_dedup_attrs_wf(attrs: Seq<(QName, String)>)
    requires
        forall|i: int| 0 <= i < attrs.len() ==> (#[trigger] attrs[i].0).wf(),
    ensures
        crate::document::attrs_wf(dedup_attrs(attrs)),
    decreases attrs.len(),
{
    if attrs.len() == 0 {
        assert(crate::document::attrs_wf(Seq::<(QName, String)>::empty()));
    } else {
        lemma_dedup_attrs_wf(attrs.drop_last());
        lemma_attr_upsert_wf(dedup_attrs(attrs.drop_last()), attrs.last().0, attrs.last().1);
    }
}

/// Finds the first position holding `key`.
pub(crate) fn find_attr(attrs: &Vec<(QName, String)>, key: &str) -> (r: Option<usize>)
    ensures
        match r {
            Some(i) => attr_key_index(attrs@, key@) == i as int,
            None => attr_key_index(attrs@, key@) == -1,
        },
{
    proof {
        lemma_attr_key_index(attrs@, key@);
    }
    let mut i: usize = 0;
    while i < attrs.len()
        invariant
            i <= attrs@.len(),
            forall|j: int| 0 <= j < i ==> (#[trigger] attrs@[j].0)@ != key@,
        decreases attrs@.len() - i,
    {
        if str_eq(attrs[i].0.prefixed_name(), key) {
            proof {
                lemma_attr_key_index(attrs@, key@);
                let s = attr_key_index(attrs@, key@);
                assert(s != -1);
                assert(!(s < i || s > i));
            }
            return Some(i);
        }
        i += 1;
    }
    proof {
        lemma_attr_key_index(attrs@, key@);
        let s = attr_key_index(attrs@, key@);
        assert(s == -1) by {
            if s != -1 {
                assert(attrs@[s].0@ == key@);
            }
        }
    }
    None
}

/// Insert-or-overwrite on the concrete table.
pub(crate) fn attr_upsert_exec(attrs: &mut Vec<(QName, String)>, k: QName, v: String)
    ensures
        final(attrs)@ == attr_upsert(old(attrs)@, k, v),
{
    proof {
        lemma_attr_key_index(attrs@, k@);
    }
    let found = find_attr(attrs, k.prefixed_name());
    match found {
        Some(i) => {
            let key = attrs[i].0.clone();
            attrs[i] = (key, v);
            proof {
                assert(final(attrs)@ == old(attrs)@.update(i as int, (old(attrs)@[i as int].0, v)));
            }
        },
        None => {
            attrs.push((k, v));
        },
    }
}

/// Builds the table that inserting every pair in order produces.
pub(crate) fn dedup_attrs_exec(attrs: Vec<(QName, String)>) -> (r: Vec<(QName, String)>)
    ensures
        r@ == dedup_attrs(attrs@),
{
    let mut r: Vec<(QName, String)> = Vec::new();
    let mut i: usize = 0;
    while i < attrs.len()
        invariant
            i <= attrs@.len(),
            r@ == dedup_attrs(attrs@.take(i as int)),
        decreases attrs@.len() - i,
    {
        let (k, v) = {
            let pair = &attrs[i];
            (pair.0.clone(), pair.1.clone())
        };
        attr_upsert_exec(&mut r, k, v);
        proof {
            let t1 = attrs@.take(i + 1);
            assert(t1.drop_last() =~= attrs@.take(i as int));
            assert(t1.last() == attrs@[i as int]);
            assert(attrs@[i as int] == (attrs@[i as int].0, attrs@[i as int].1));
        }
        i += 1;
    }
    proof {
        assert(attrs@.take(attrs@.len() as int) =~= attrs@);
    }
    r
}

} // verus!
