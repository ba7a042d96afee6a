//! The node store: a vector of generation-tagged slots with a free list.
//! Each slot holds a node payload together with its parent entry and, for
//! element nodes, its attribute table. A freed slot is reused only under a
//! fresh generation, so a stale key is detected, never silently re-bound.

use vstd::prelude::*;

use crate::element::Element;
use crate::key::DocKey;
use crate::key::Node;
use crate::qname::QName;
use crate::value::clone_attrs;
use crate::value::value_like;
use crate::value::NodeValue;

verus! {

/// The element accessors read the payload's fields.
pub(crate) broadcast proof fn lemma_arena_name_of(a: Arena, k: DocKey)
    ensures
        #[trigger] a.name_of(k) == a.value_of(k)->Element_0.name,
{
}

pub(crate) broadcast proof fn lemma_arena_children_of(a: Arena, k: DocKey)
    ensures
        #[trigger] a.children_of(k) == a.value_of(k)->Element_0.children@,
{
}

/// What a live slot holds: the payload, the parent entry (absent for the root
/// and for free-standing nodes), and the attribute table (non-empty only for
/// elements).
#[derive(Debug)]
pub(crate) struct Entry {
    pub(crate) value: NodeValue,
    pub(crate) parent: Option<Element>,
    pub(crate) attrs: Vec<(QName, String)>,
}

#[derive(Debug)]
pub(crate) struct Slot {
    pub(crate) gen: u64,
    pub(crate) entry: Option<Entry>,
}

/// The store itself. `next_gen` is a counter from which every occupied slot
/// takes its generation; once it would overflow, freed slots are no longer
/// reused and fresh keys get fresh indices instead.
#[derive(Debug)]
pub struct Arena {
    slots: Vec<Slot>,
    free: Vec<usize>,
    next_gen: u64,
}

pub(crate) const GEN_LIMIT: u64 = 0xFFFF_FFFF_FFFF_FFFF;

impl Arena {
    /// A key resolves only while its generation matches its slot's.
    pub closed spec fn live(self, k: DocKey) -> bool {
        &&& k.idx < self.slots@.len()
        &&& self.slots@[k.idx as int].gen == k.gen
        &&& self.slots@[k.idx as int].entry is Some
    }

    pub(crate) closed spec fn entry_of(self, k: DocKey) -> Entry {
        self.slots@[k.idx as int].entry.unwrap()
    }

    pub closed spec fn value_of(self, k: DocKey) -> NodeValue {
        self.entry_of(k).value
    }

    pub closed spec fn parent_of(self, k: DocKey) -> Option<Element> {
        self.entry_of(k).parent
    }

    pub closed spec fn attrs_of(self, k: DocKey) -> Seq<(QName, String)> {
        self.entry_of(k).attrs@
    }

    pub open spec fn is_element(self, k: DocKey) -> bool {
        self.live(k) && self.value_of(k) is Element
    }

    pub closed spec fn name_of(self, k: DocKey) -> QName {
        self.value_of(k)->Element_0.name
    }

    pub closed spec fn children_of(self, k: DocKey) -> Seq<Node> {
        self.value_of(k)->Element_0.children@
    }

    /// Every key the store has ever handed out satisfies this, and every key
    /// a future `insert` returns is distinct from every key satisfying it.
    pub closed spec fn bounded(self, k: DocKey) -> bool {
        k.idx < self.slots@.len() && (k.gen < self.next_gen || self.next_gen == GEN_LIMIT)
    }

    pub closed spec fn wf(self) -> bool {
        &&& forall|i: int|
            0 <= i < self.slots@.len() ==> (#[trigger] self.slots@[i].gen < self.next_gen
                || self.slots@[i].gen == self.next_gen == GEN_LIMIT)
        &&& forall|j: int|
            0 <= j < self.free@.len() ==> (#[trigger] self.free@[j] < self.slots@.len()
                && self.slots@[self.free@[j] as int].entry is None)
        &&& forall|j1: int, j2: int|
            0 <= j1 < j2 < self.free@.len() ==> self.free@[j1] != self.free@[j2]
    }

    /// Records of every key other than `k` read the same in both stores.
    pub open spec fn same_except(a1: Arena, a2: Arena, k: DocKey) -> bool {
        forall|h: DocKey|
            h != k ==> (#[trigger] a2.live(h) == a1.live(h) && (a1.live(h) ==> a2.value_of(h)
                == a1.value_of(h) && a2.parent_of(h) == a1.parent_of(h) && a2.attrs_of(h)
                == a1.attrs_of(h)))
    }

    /// Every key bounded in `a1` stays bounded in `a2`.
    pub open spec fn grows_from(a2: Arena, a1: Arena) -> bool {
        forall|h: DocKey| a1.bounded(h) ==> #[trigger] a2.bounded(h)
    }

    /// A live key is always bounded in a well-formed store.
    pub broadcast proof fn lemma_live_bounded(self, k: DocKey)
        requires
            self.wf(),
            #[trigger] self.live(k),
        ensures
            self.bounded(k),
    {
    }

    pub fn new() -> (r: Arena)
        ensures
            r.wf(),
            forall|h: DocKey| !(#[trigger] r.live(h)),
            forall|h: DocKey| !(#[trigger] r.bounded(h)),
    {
        Arena { slots: Vec::new(), free: Vec::new(), next_gen: 0 }
    }

    /// Stores a payload under a fresh key, with no parent entry and an empty
    /// attribute table.
    pub fn insert(&mut self, value: NodeValue) -> (k: DocKey)
        requires
            old(self).wf(),
        ensures
            final(self).wf(),
            final(self).live(k),
            !old(self).live(k),
            forall|h: DocKey| old(self).bounded(h) ==> h != k,
            final(self).bounded(k),
            final(self).value_of(k) == value,
            final(self).parent_of(k) == None::<Element>,
            final(self).attrs_of(k) == Seq::<(QName, String)>::empty(),
            Arena::same_except(*old(self), *final(self), k),
            Arena::grows_from(*final(self), *old(self)),
    {
        let entry = Entry { value, parent: None, attrs: Vec::new() };
        let gen = self.next_gen;
        if gen < GEN_LIMIT {
            self.next_gen = gen + 1;
            if let Some(idx) = self.free.pop() {
                let slot = Slot { gen, entry: Some(entry) };
                self.slots[idx] = slot;
                return DocKey { idx, gen };
            }
            let idx = self.slots.len();
            self.slots.push(Slot { gen, entry: Some(entry) });
            DocKey { idx, gen }
        } else {
            let idx = self.slots.len();
            self.slots.push(Slot { gen, entry: Some(entry) });
            DocKey { idx, gen }
        }
    }

    pub fn is_live(&self, k: DocKey) -> (r: bool)
        ensures
            r == self.live(k),
    {
        k.idx < self.slots.len() && self.slots[k.idx].gen == k.gen && matches!(
            self.slots[k.idx].entry,
            Some(_),
        )
    }

    /// Frees the slot under the key; the key and every copy of it become
    /// permanently invalid. Reports whether the key was live.
    pub fn remove(&mut self, k: DocKey) -> (r: bool)
        requires
            old(self).wf(),
        ensures
            final(self).wf(),
            r == old(self).live(k),
            !final(self).live(k),
            Arena::same_except(*old(self), *final(self), k),
            Arena::grows_from(*final(self), *old(self)),
    {
        if !self.is_live(k) {
            return false;
        }
        self.slots[k.idx] = Slot { gen: k.gen, entry: None };
        self.free.push(k.idx);
        true
    }

    pub fn value(&self, k: DocKey) -> (r: Option<&NodeValue>)
        ensures
            match r {
                Some(v) => self.live(k) && *v == self.value_of(k),
                None => !self.live(k),
            },
    {
        if k.idx < self.slots.len() && self.slots[k.idx].gen == k.gen {
            match &self.slots[k.idx].entry {
                Some(e) => Some(&e.value),
                None => None,
            }
        } else {
            None
        }
    }

    /// The parent entry under the key; `None` also for a stale key.
    pub fn parent(&self, k: DocKey) -> (r: Option<Element>)
        ensures
            r == (if self.live(k) {
                self.parent_of(k)
            } else {
                None::<Element>
            }),
    {
        if k.idx < self.slots.len() && self.slots[k.idx].gen == k.gen {
            match &self.slots[k.idx].entry {
                Some(e) => e.parent,
                None => None,
            }
        } else {
            None
        }
    }

    /// The element's name, when the key is a live element.
    pub fn name(&self, k: DocKey) -> (r: Option<&QName>)
        ensures
            match r {
                Some(q) => self.is_element(k) && *q == self.name_of(k),
                None => !self.is_element(k),
            },
    {
        if k.idx < self.slots.len() && self.slots[k.idx].gen == k.gen {
            match &self.slots[k.idx].entry {
                Some(e) => match &e.value {
                    NodeValue::Element(ev) => Some(&ev.name),
                    _ => None,
                },
                None => None,
            }
        } else {
            None
        }
    }

    /// The element's children, when the key is a live element.
    pub fn children(&self, k: DocKey) -> (r: Option<&Vec<Node>>)
        ensures
            match r {
                Some(c) => self.is_element(k) && c@ == self.children_of(k),
                None => !self.is_element(k),
            },
    {
        if k.idx < self.slots.len() && self.slots[k.idx].gen == k.gen {
            match &self.slots[k.idx].entry {
                Some(e) => match &e.value {
                    NodeValue::Element(ev) => Some(&ev.children),
                    _ => None,
                },
                None => None,
            }
        } else {
            None
        }
    }

    /// The attribute table under the key, when the key is live.
    pub fn attrs(&self, k: DocKey) -> (r: Option<&Vec<(QName, String)>>)
        ensures
            match r {
                Some(a) => self.live(k) && a@ == self.attrs_of(k),
                None => !self.live(k),
            },
    {
        if k.idx < self.slots.len() && self.slots[k.idx].gen == k.gen {
            match &self.slots[k.idx].entry {
                Some(e) => Some(&e.attrs),
                None => None,
            }
        } else {
            None
        }
    }

    /// Rebinds the parent entry of a live key.
    pub fn set_parent(&mut self, k: DocKey, p: Option<Element>) -> (r: bool)
        requires
            old(self).wf(),
        ensures
            final(self).wf(),
            r == old(self).live(k),
            Arena::same_except(*old(self), *final(self), k),
            Arena::grows_from(*final(self), *old(self)),
            final(self).live(k) == old(self).live(k),
            old(self).live(k) ==> {
                &&& final(self).value_of(k) == old(self).value_of(k)
                &&& final(self).parent_of(k) == p
                &&& final(self).attrs_of(k) == old(self).attrs_of(k)
            },
    {
        if k.idx < self.slots.len() && self.slots[k.idx].gen == k.gen {
            let slot = &mut self.slots[k.idx];
            match &mut slot.entry {
                Some(e) => {
                    e.parent = p;
                    true
                },
                None => false,
            }
        } else {
            false
        }
    }

    /// Replaces the attribute table of a live key.
    pub fn set_attrs(&mut self, k: DocKey, attrs: Vec<(QName, String)>) -> (r: bool)
        requires
            old(self).wf(),
        ensures
            final(self).wf(),
            r == old(self).live(k),
            Arena::same_except(*old(self), *final(self), k),
            Arena::grows_from(*final(self), *old(self)),
            final(self).live(k) == old(self).live(k),
            old(self).live(k) ==> {
                &&& final(self).value_of(k) == old(self).value_of(k)
                &&& final(self).parent_of(k) == old(self).parent_of(k)
                &&& final(self).attrs_of(k) == attrs@
            },
    {
        if k.idx < self.slots.len() && self.slots[k.idx].gen == k.gen {
            let slot = &mut self.slots[k.idx];
            match &mut slot.entry {
                Some(e) => {
                    e.attrs = attrs;
                    true
                },
                None => false,
            }
        } else {
            false
        }
    }

    /// Replaces the children of a live element key.
    pub fn set_children(&mut self, k: DocKey, children: Vec<Node>) -> (r: bool)
        requires
            old(self).wf(),
        ensures
            final(self).wf(),
            r == old(self).is_element(k),
            Arena::same_except(*old(self), *final(self), k),
            Arena::grows_from(*final(self), *old(self)),
            final(self).live(k) == old(self).live(k),
            old(self).is_element(k) ==> {
                &&& final(self).is_element(k)
                &&& final(self).name_of(k) == old(self).name_of(k)
                &&& final(self).children_of(k) == children@
                &&& final(self).parent_of(k) == old(self).parent_of(k)
                &&& final(self).attrs_of(k) == old(self).attrs_of(k)
            },
            old(self).live(k) && !old(self).is_element(k) ==> {
                &&& final(self).value_of(k) == old(self).value_of(k)
                &&& final(self).parent_of(k) == old(self).parent_of(k)
                &&& final(self).attrs_of(k) == old(self).attrs_of(k)
            },
    {
        if k.idx < self.slots.len() && self.slots[k.idx].gen == k.gen {
            let slot = &mut self.slots[k.idx];
            match &mut slot.entry {
                Some(e) => match &mut e.value {
                    NodeValue::Element(ev) => {
                        ev.children = children;
                        true
                    },
                    _ => false,
                },
                None => false,
            }
        } else {
            false
        }
    }

    /// The live key occupying slot `i`, if any; at most one key per slot is
    /// live at a time.
    pub closed spec fn spec_key_at(self, i: int) -> Option<DocKey> {
        if 0 <= i < self.slots@.len() && self.slots@[i].entry is Some {
            Some(DocKey { idx: i as usize, gen: self.slots@[i].gen })
        } else {
            None
        }
    }

    /// Every live key is the one its slot reports.
    pub(crate) broadcast proof fn lemma_key_at_live(self, k: DocKey)
        requires
            #[trigger] self.live(k),
        ensures
            self.spec_key_at(k.idx as int) == Some(k),
    {
    }

    pub(crate) fn key_at(&self, i: usize) -> (r: Option<DocKey>)
        ensures
            r == self.spec_key_at(i as int),
            r matches Some(k) ==> self.live(k) && k.idx == i,
    {
        if i < self.slots.len() {
            match &self.slots[i].entry {
                Some(_) => Some(DocKey { idx: i, gen: self.slots[i].gen }),
                None => None,
            }
        } else {
            None
        }
    }

    /// The number of slots; an upper bound for traversal budgets.
    pub fn slot_count(&self) -> (r: usize)
        ensures
            r == self.spec_slot_count(),
    {
        self.slots.len()
    }

    /// The slot count again, with the bound it puts on every live key's
    /// index.
    pub(crate) fn slot_count_keys(&self) -> (r: usize)
        ensures
            r == self.spec_slot_count(),
            forall|k: DocKey| #[trigger] self.live(k) ==> k.idx < r,
    {
        self.slots.len()
    }

    pub closed spec fn spec_slot_count(self) -> usize {
        self.slots@.len() as usize
    }

    /// One slot mirrors another: same generation, same occupancy, and a
    /// content-equal record.
    pub(crate) open spec fn slot_like(s1: Slot, s2: Slot) -> bool {
        &&& s1.gen == s2.gen
        &&& s1.entry is Some == s2.entry is Some
        &&& s1.entry matches Some(e1) ==> (s2.entry matches Some(e2) && value_like(
            e1.value,
            e2.value,
        ) && e1.parent == e2.parent && e1.attrs@ == e2.attrs@)
    }

    /// Deep copy: the copy resolves exactly the keys the original does, to
    /// content-equal records, and shares no storage with it.
    pub fn deep_clone(&self) -> (r: Arena)
        requires
            self.wf(),
        ensures
            r.wf(),
            r.spec_slot_count() == self.spec_slot_count(),
            forall|h: DocKey| #[trigger] r.live(h) == self.live(h),
            forall|h: DocKey| #[trigger] r.bounded(h) == self.bounded(h),
            forall|h: DocKey|
                #[trigger] self.live(h) ==> (value_like(r.value_of(h), self.value_of(h))
                    && r.parent_of(h) == self.parent_of(h) && r.attrs_of(h) == self.attrs_of(h)),
    {
        let mut slots: Vec<Slot> = Vec::new();
        let mut i: usize = 0;
        while i < self.slots.len()
            invariant
                i <= self.slots@.len(),
                slots@.len() == i,
                forall|j: int| 0 <= j < i ==> Arena::slot_like(self.slots@[j], #[trigger] slots@[j]),
            decreases self.slots@.len() - i,
        {
            let s = &self.slots[i];
            let entry = match &s.entry {
                Some(e) => Some(
                    Entry {
                        value: e.value.clone(),
                        parent: e.parent,
                        attrs: clone_attrs(&e.attrs),
                    },
                ),
                None => None,
            };
            slots.push(Slot { gen: s.gen, entry });
            i += 1;
        }
        let mut free: Vec<usize> = Vec::new();
        let mut j: usize = 0;
        while j < self.free.len()
            invariant
                j <= self.free@.len(),
                free@ =~= self.free@.take(j as int),
            decreases self.free@.len() - j,
        {
            free.push(self.free[j]);
            proof {
                assert(self.free@.take(j + 1) =~= self.free@.take(j as int).push(
                    self.free@[j as int],
                ));
            }
            j += 1;
        }
        proof {
            assert(free@ =~= self.free@);
        }
        Arena { slots, free, next_gen: self.next_gen }
    }
}

} // verus!
