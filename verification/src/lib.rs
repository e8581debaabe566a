//! A doubly linked list backed by a vector.
//!
//! `IndexList<T>` stores all of its nodes inside one growable vector instead
//! of allocating each node on the heap. Callers hold an `Index` — a
//! (position, generation) pair — and use it to fetch, mutate or remove an
//! element in constant time. Slots left behind by removals are chained into
//! a free list and reused by later insertions; the generation counter makes
//! sure a stale `Index` never resolves to the slot's next occupant.

use std::marker::PhantomData;
use vstd::pervasive::VecAdditionalExecFns;
use vstd::prelude::*;
use vstd::std_specs::cmp::PartialEqSpec;

verus! {

/// One cell of the slot table: either free (chained into the free list) or
/// occupied by a live element.
#[derive(Debug, PartialEq)]
pub enum Entry<T> {
    Free { next_free: Option<usize> },
    Occupied(OccupiedEntry<T>),
}

/// The payload of an occupied slot: the element, the generation it was
/// stored at, and its neighbours in list order.
#[derive(Debug, PartialEq)]
pub struct OccupiedEntry<T> {
    pub item: T,
    pub generation: usize,
    pub next: Option<usize>,
    pub prev: Option<usize>,
}

/// A reference to an element in the list.
///
/// An `Index` remembers the slot position it points at and the generation
/// the element was inserted at. Whenever it is used, the stored generation
/// is compared against the slot's: if the element has since been removed
/// (and the slot possibly reused), the generations differ and the `Index`
/// is rejected instead of resolving to unrelated data.
#[derive(Debug, PartialEq)]
pub struct Index<T> {
    pub index: usize,
    pub generation: usize,
    pub _marker: PhantomData<T>,
}

/// A doubly linked list, backed by a vector.
///
/// The two ghost sequences record the positions of the live chain (in list
/// order) and of the free chain; the well-formedness predicate `wf` ties
/// them to the links actually stored in the slots.
pub struct IndexList<T> {
    pub contents: Vec<Entry<T>>,
    pub generation: usize,
    pub next_free: Option<usize>,
    pub head: Option<usize>,
    pub tail: Option<usize>,
    pub order: Ghost<Seq<usize>>,
    pub free: Ghost<Seq<usize>>,
}

impl<T> Clone for Index<T> {
    fn clone(&self) -> (r: Self)
        ensures
            r == *self,
    {
        Index { index: self.index, generation: self.generation, _marker: PhantomData }
    }
}

impl<T> Copy for Index<T> {

}

impl<T> Index<T> {
    pub fn new(index: usize, generation: usize) -> (r: Index<T>)
        ensures
            r == (Index::<T> { index, generation, _marker: PhantomData }),
            r.index == index,
            r.generation == generation,
    {
        Index { index, generation, _marker: PhantomData }
    }
}

impl<T> IndexList<T> {
    /// The number of slots in the backing vector (free ones included).
    pub open spec fn num_slots(self) -> int {
        self.contents@.len() as int
    }

    /// Does position `p` hold an occupied slot?
    pub open spec fn slot_occupied(self, p: usize) -> bool {
        &&& (p as int) < self.num_slots()
        &&& self.contents@[p as int] is Occupied
    }

    /// The occupied slot at position `p`.
    pub open spec fn slot(self, p: usize) -> OccupiedEntry<T> {
        self.contents@[p as int]->Occupied_0
    }

    /// The element stored at position `p`.
    pub open spec fn item_at(self, p: usize) -> T {
        self.slot(p).item
    }

    /// The position in list order before index `i` of the live chain.
    pub open spec fn prev_of(self, i: int) -> Option<usize> {
        if i == 0 {
            None
        } else {
            Some(self.order@[i - 1])
        }
    }

    /// The position in list order after index `i` of the live chain.
    pub open spec fn next_of(self, i: int) -> Option<usize> {
        if i + 1 == self.order@.len() {
            None
        } else {
            Some(self.order@[i + 1])
        }
    }

    /// The `i`-th node of the live chain is occupied, carries the links that
    /// list order dictates, and is stamped with a generation the container
    /// has already reached.
    pub open spec fn node_wf(self, i: int) -> bool {
        let p = self.order@[i];
        &&& self.slot_occupied(p)
        &&& self.slot(p).next == self.next_of(i)
        &&& self.slot(p).prev == self.prev_of(i)
        &&& self.slot(p).generation <= self.generation
    }

    /// The live chain: its nodes are well formed, positions are never
    /// repeated, and `head`/`tail` point at its two ends.
    pub open spec fn order_wf(self) -> bool {
        let ord = self.order@;
        &&& forall|i: int| 0 <= i < ord.len() ==> self.node_wf(i)
        &&& ord.no_duplicates()
        &&& if ord.len() == 0 {
            self.head is None && self.tail is None
        } else {
            self.head == Some(ord[0]) && self.tail == Some(ord[ord.len() - 1])
        }
    }

    /// The `k`-th node of the free chain is a free slot whose stored link
    /// leads to the rest of the chain.
    pub open spec fn free_node_wf(self, k: int) -> bool {
        let fr = self.free@;
        let p = fr[k];
        &&& (p as int) < self.num_slots()
        &&& self.contents@[p as int] matches Entry::Free { next_free }
            && next_free == if k + 1 == fr.len() {
                None
            } else {
                Some(fr[k + 1])
            }
    }

    /// The free chain: well-formed nodes, no repeats, entered at `next_free`.
    pub open spec fn free_wf(self) -> bool {
        let fr = self.free@;
        &&& forall|k: int| 0 <= k < fr.len() ==> self.free_node_wf(k)
        &&& fr.no_duplicates()
        &&& if fr.len() == 0 {
            self.next_free is None
        } else {
            self.next_free == Some(fr[0])
        }
    }

    /// Every occupied slot of the table stands somewhere in the live chain.
    pub open spec fn occupied_covered(self) -> bool {
        forall|p: usize|
            (p as int) < self.num_slots() && self.contents@[p as int] is Occupied
                ==> #[trigger] self.order@.contains(p)
    }

    /// Every free slot of the table stands somewhere in the free chain.
    pub open spec fn free_covered(self) -> bool {
        forall|p: usize|
            (p as int) < self.num_slots() && self.contents@[p as int] is Free
                ==> #[trigger] self.free@.contains(p)
    }

    /// The container's invariant.
    pub open spec fn wf(self) -> bool {
        &&& self.order_wf()
        &&& self.free_wf()
        &&& self.occupied_covered()
        &&& self.free_covered()
    }

    /// Is `h` a handle to a live element: its position holds an occupied
    /// slot whose stored generation matches the handle's?
    pub open spec fn handle_live(self, h: Index<T>) -> bool {
        &&& self.slot_occupied(h.index)
        &&& self.slot(h.index).generation == h.generation
    }

    /// The handle that the container would hand out for position `p`.
    pub open spec fn handle_for(self, p: usize) -> Index<T> {
        Index { index: p, generation: self.slot(p).generation, _marker: PhantomData }
    }

    /// The place in list order of the element at position `p` (meaningful
    /// when some live element sits at `p`).
    pub open spec fn order_pos(self, p: usize) -> int {
        self.order@.index_of(p)
    }

    /// What `get` returns for handle `h`.
    pub open spec fn spec_get(self, h: Index<T>) -> Option<T> {
        if self.handle_live(h) {
            Some(self.item_at(h.index))
        } else {
            None
        }
    }

    /// What `next_index` returns for handle `h`: the handle of the next
    /// element in list order, or `None` at the end of the list or for a
    /// stale handle.
    pub open spec fn spec_next_index(self, h: Index<T>) -> Option<Index<T>> {
        if self.handle_live(h) && self.order_pos(h.index) + 1 < self.order@.len() {
            Some(self.handle_for(self.order@[self.order_pos(h.index) + 1]))
        } else {
            None
        }
    }

    /// What `prev_index` returns for handle `h`: the handle of the previous
    /// element in list order, or `None` at the head or for a stale handle.
    pub open spec fn spec_prev_index(self, h: Index<T>) -> Option<Index<T>> {
        if self.handle_live(h) && self.order_pos(h.index) > 0 {
            Some(self.handle_for(self.order@[self.order_pos(h.index) - 1]))
        } else {
            None
        }
    }

    /// Creates a new, empty `IndexList<T>`.
    pub fn new() -> (r: IndexList<T>)
        ensures
            r.wf(),
            r@ == Seq::<T>::empty(),
            r.num_slots() == 0,
            r.generation == 0,
            r.next_free is None,
            r.head is None,
            r.tail is None,
    {
        Self::default()
    }

    /// Creates a new, empty `IndexList<T>` whose backing vector has room for
    /// `size` elements before it must grow. A performance hint only: the
    /// result is indistinguishable from `IndexList::new()`.
    pub fn with_capacity(size: usize) -> (r: IndexList<T>)
        ensures
            r.wf(),
            r@ == Seq::<T>::empty(),
            r.num_slots() == 0,
            r.generation == 0,
            r.next_free is None,
            r.head is None,
            r.tail is None,
    {
        IndexList {
            contents: Vec::with_capacity(size),
            generation: 0,
            next_free: None,
            head: None,
            tail: None,
            order: Ghost(Seq::empty()),
            free: Ghost(Seq::empty()),
        }
    }
}

impl<T> IndexList<T> {
    /// Writes the given element into a slot and returns its position: the
    /// head of the free list when there is one, otherwise a slot freshly
    /// appended to the table. The sole allocation policy: reuse always comes
    /// before growth.
    fn alloc_slot(&mut self, item: T, next: Option<usize>, prev: Option<usize>) -> (pos: usize)
        requires
            old(self).free_wf(),
            old(self).free_covered(),
        ensures
            final(self).free_wf(),
            final(self).free_covered(),
            old(self).next_free matches Some(p) ==> pos == p
                && final(self).num_slots() == old(self).num_slots()
                && final(self).free@ == old(self).free@.drop_first(),
            old(self).next_free is None ==> pos as int == old(self).num_slots()
                && final(self).num_slots() == old(self).num_slots() + 1
                && final(self).free@ == old(self).free@,
            (pos as int) < final(self).num_slots(),
            !old(self).slot_occupied(pos),
            final(self).contents@[pos as int] == Entry::Occupied(
                OccupiedEntry { item, generation: old(self).generation, next, prev },
            ),
            forall|q: int|
                0 <= q < old(self).num_slots() && q != pos as int ==> final(self).contents@[q]
                    == old(self).contents@[q],
            final(self).generation == old(self).generation,
            final(self).head == old(self).head,
            final(self).tail == old(self).tail,
            final(self).order == old(self).order,
    {
        let entry = Entry::Occupied(
            OccupiedEntry { item, generation: self.generation, next, prev },
        );
        match self.next_free {
            Some(pos) => {
                proof {
                    assert(self.free_node_wf(0));
                }
                let nf = match &self.contents[pos] {
                    Entry::Free { next_free } => *next_free,
                    Entry::Occupied(_) => unreached(),
                };
                self.next_free = nf;
                self.contents.set(pos, entry);
                proof {
                    let fr0 = old(self).free@;
                    self.free@ = fr0.drop_first();
                    assert forall|k: int| 0 <= k < self.free@.len() implies self.free_node_wf(
                        k,
                    ) by {
                        assert(old(self).free_node_wf(k + 1));
                        assert(fr0[k + 1] != fr0[0]);
                    }
                    assert forall|p: usize|
                        (p as int) < self.num_slots() && self.contents@[p as int] is Free
                        implies #[trigger] self.free@.contains(p) by {
                        assert(fr0.contains(p));
                        let k = choose|k: int| 0 <= k < fr0.len() && fr0[k] == p;
                        assert(k != 0);
                        assert(self.free@[k - 1] == p);
                    }
                }
                pos
            },
            None => {
                let pos = self.contents.len();
                self.contents.push(entry);
                proof {
                    assert(old(self).free@.len() == 0);
                    assert forall|p: usize|
                        (p as int) < self.num_slots() && self.contents@[p as int] is Free
                        implies #[trigger] self.free@.contains(p) by {
                        assert(p as int != pos as int);
                        assert(old(self).contents@[p as int] is Free);
                    }
                }
                pos
            },
        }
    }

    /// Rewrites the `next` link of the occupied slot at `p`.
    fn set_next(&mut self, p: usize, nxt: Option<usize>)
        requires
            old(self).slot_occupied(p),
        ensures
            final(self).contents@ == old(self).contents@.update(
                p as int,
                Entry::Occupied(
                    OccupiedEntry {
                        item: old(self).slot(p).item,
                        generation: old(self).slot(p).generation,
                        next: nxt,
                        prev: old(self).slot(p).prev,
                    },
                ),
            ),
            final(self).generation == old(self).generation,
            final(self).next_free == old(self).next_free,
            final(self).head == old(self).head,
            final(self).tail == old(self).tail,
            final(self).order == old(self).order,
            final(self).free == old(self).free,
    {
        match &mut self.contents[p] {
            Entry::Occupied(e) => {
                e.next = nxt;
            },
            Entry::Free { .. } => {
                unreached()
            },
        }
    }

    /// Rewrites the `prev` link of the occupied slot at `p`.
    fn set_prev(&mut self, p: usize, prv: Option<usize>)
        requires
            old(self).slot_occupied(p),
        ensures
            final(self).contents@ == old(self).contents@.update(
                p as int,
                Entry::Occupied(
                    OccupiedEntry {
                        item: old(self).slot(p).item,
                        generation: old(self).slot(p).generation,
                        next: old(self).slot(p).next,
                        prev: prv,
                    },
                ),
            ),
            final(self).generation == old(self).generation,
            final(self).next_free == old(self).next_free,
            final(self).head == old(self).head,
            final(self).tail == old(self).tail,
            final(self).order == old(self).order,
            final(self).free == old(self).free,
    {
        match &mut self.contents[p] {
            Entry::Occupied(e) => {
                e.prev = prv;
            },
            Entry::Free { .. } => {
                unreached()
            },
        }
    }

    /// A live handle denotes one definite place in list order: `order_pos`
    /// of its position is within the live chain, names its position, and
    /// the element there is the one the handle resolves to.
    pub proof fn lemma_handle_position(self, h: Index<T>)
        requires
            self.wf(),
            self.handle_live(h),
        ensures
            0 <= self.order_pos(h.index) < self.order@.len(),
            self.order@[self.order_pos(h.index)] == h.index,
            self@[self.order_pos(h.index)] == self.item_at(h.index),
            self@.len() > 0,
    {
        assert(self.order@.contains(h.index));
        let k = choose|k: int| 0 <= k < self.order@.len() && self.order@[k] == h.index;
        assert(self.order@[k] == h.index);
    }

    /// Adds this item at the tail of the list and returns a fresh handle to
    /// it. The slot is the head of the free list when there is one,
    /// otherwise a slot freshly appended to the table, and it is stamped
    /// with the container's current generation.
    pub fn push_back(&mut self, item: T) -> (h: Index<T>)
        requires
            old(self).wf(),
        ensures
            final(self).wf(),
            final(self)@ == old(self)@.push(item),
            final(self).order@ == old(self).order@.push(h.index),
            final(self).generation == old(self).generation,
            h.generation == old(self).generation,
            final(self).handle_live(h),
            final(self).spec_get(h) == Some(item),
            old(self).next_free matches Some(p) ==> h.index == p && final(self).num_slots()
                == old(self).num_slots(),
            old(self).next_free is None ==> h.index as int == old(self).num_slots()
                && final(self).num_slots() == old(self).num_slots() + 1,
            forall|h2: Index<T>| #[trigger]
                old(self).handle_live(h2) ==> final(self).handle_live(h2)
                    && final(self).item_at(h2.index) == old(self).item_at(h2.index),
            forall|h2: Index<T>|
                !old(self).handle_live(h2) && h2.generation != old(self).generation
                    ==> !(#[trigger] final(self).handle_live(h2)),
    {
        let gen = self.generation;
        let tail_opt = self.tail;
        let pos = self.alloc_slot(item, None, tail_opt);
        proof {
            assert forall|i: int| 0 <= i < self.order@.len() implies self.order@[i] != pos by {
                assert(old(self).node_wf(i));
            }
        }
        match tail_opt {
            None => {
                self.head = Some(pos);
            },
            Some(tp) => {
                proof {
                    assert(old(self).node_wf(old(self).order@.len() - 1));
                }
                self.set_next(tp, Some(pos));
            },
        }
        self.tail = Some(pos);
        proof {
            let ord0 = old(self).order@;
            let n = ord0.len() as int;
            self.order@ = ord0.push(pos);
            if n > 0 {
                assert(old(self).node_wf(n - 1));
            }
            assert forall|i: int| 0 <= i < self.order@.len() implies self.node_wf(i) by {
                if i < n {
                    assert(old(self).node_wf(i));
                }
            }
            assert forall|p2: usize|
                (p2 as int) < self.num_slots() && self.contents@[p2 as int] is Occupied
                implies #[trigger] self.order@.contains(p2) by {
                if p2 == pos {
                    assert(self.order@[n] == p2);
                } else {
                    assert(old(self).contents@[p2 as int] is Occupied);
                    assert(ord0.contains(p2));
                    let k = choose|k: int| 0 <= k < ord0.len() && ord0[k] == p2;
                    assert(self.order@[k] == p2);
                }
            }
            assert forall|h2: Index<T>| #[trigger]
                old(self).handle_live(h2) implies self.handle_live(h2) && self.item_at(h2.index)
                == old(self).item_at(h2.index) by {
                assert(self.contents@[h2.index as int] is Occupied);
            }
            assert forall|k: int| 0 <= k < self.free@.len() implies self.free_node_wf(k) by {
                if old(self).next_free is Some {
                    assert(old(self).free_node_wf(k + 1));
                    assert(old(self).free@[k + 1] != old(self).free@[0]);
                } else {
                    assert(old(self).free_node_wf(k));
                }
            }
            assert forall|p2: usize|
                (p2 as int) < self.num_slots() && self.contents@[p2 as int] is Free
                implies #[trigger] self.free@.contains(p2) by {
                assert(old(self).contents@[p2 as int] is Free);
                assert(old(self).free@.contains(p2));
                let k = choose|k: int| 0 <= k < old(self).free@.len() && old(self).free@[k] == p2;
                if old(self).next_free is Some {
                    assert(k != 0);
                    assert(self.free@[k - 1] == p2);
                } else {
                    assert(self.free@[k] == p2);
                }
            }
            assert(self@ =~= old(self)@.push(item)) by {
                assert forall|i: int| 0 <= i < n implies self@[i] == old(self)@[i] by {
                    assert(old(self).node_wf(i));
                }
            }
        }
        Index::new(pos, gen)
    }

    /// Adds this item at the head of the list and returns a fresh handle to
    /// it. The slot is chosen exactly as in `push_back`: the head of the
    /// free list when there is one, otherwise a freshly appended slot.
    pub fn push_front(&mut self, item: T) -> (h: Index<T>)
        requires
            old(self).wf(),
        ensures
            final(self).wf(),
            final(self)@ == seq![item] + old(self)@,
            final(self).order@ == seq![h.index] + old(self).order@,
            final(self).generation == old(self).generation,
            h.generation == old(self).generation,
            final(self).handle_live(h),
            final(self).spec_get(h) == Some(item),
            old(self).next_free matches Some(p) ==> h.index == p && final(self).num_slots()
                == old(self).num_slots(),
            old(self).next_free is None ==> h.index as int == old(self).num_slots()
                && final(self).num_slots() == old(self).num_slots() + 1,
            forall|h2: Index<T>| #[trigger]
                old(self).handle_live(h2) ==> final(self).handle_live(h2)
                    && final(self).item_at(h2.index) == old(self).item_at(h2.index),
            forall|h2: Index<T>|
                !old(self).handle_live(h2) && h2.generation != old(self).generation
                    ==> !(#[trigger] final(self).handle_live(h2)),
    {
        let gen = self.generation;
        let head_opt = self.head;
        let pos = self.alloc_slot(item, head_opt, None);
        proof {
            assert forall|i: int| 0 <= i < self.order@.len() implies self.order@[i] != pos by {
                assert(old(self).node_wf(i));
            }
        }
        match head_opt {
            None => {
                self.tail = Some(pos);
            },
            Some(hp) => {
                proof {
                    assert(old(self).node_wf(0));
                }
                self.set_prev(hp, Some(pos));
            },
        }
        self.head = Some(pos);
        proof {
            let ord0 = old(self).order@;
            let n = ord0.len() as int;
            self.order@ = seq![pos] + ord0;
            if n > 0 {
                assert(old(self).node_wf(0));
            }
            assert forall|i: int| 0 <= i < self.order@.len() implies self.node_wf(i) by {
                if 0 < i {
                    assert(old(self).node_wf(i - 1));
                }
            }
            assert forall|p2: usize|
                (p2 as int) < self.num_slots() && self.contents@[p2 as int] is Occupied
                implies #[trigger] self.order@.contains(p2) by {
                if p2 == pos {
                    assert(self.order@[0] == p2);
                } else {
                    assert(old(self).contents@[p2 as int] is Occupied);
                    assert(ord0.contains(p2));
                    let k = choose|k: int| 0 <= k < ord0.len() && ord0[k] == p2;
                    assert(self.order@[k + 1] == p2);
                }
            }
            assert forall|h2: Index<T>| #[trigger]
                old(self).handle_live(h2) implies self.handle_live(h2) && self.item_at(h2.index)
                == old(self).item_at(h2.index) by {
                assert(self.contents@[h2.index as int] is Occupied);
            }
            assert forall|k: int| 0 <= k < self.free@.len() implies self.free_node_wf(k) by {
                if old(self).next_free is Some {
                    assert(old(self).free_node_wf(k + 1));
                    assert(old(self).free@[k + 1] != old(self).free@[0]);
                } else {
                    assert(old(self).free_node_wf(k));
                }
            }
            assert forall|p2: usize|
                (p2 as int) < self.num_slots() && self.contents@[p2 as int] is Free
                implies #[trigger] self.free@.contains(p2) by {
                assert(old(self).contents@[p2 as int] is Free);
                assert(old(self).free@.contains(p2));
                let k = choose|k: int| 0 <= k < old(self).free@.len() && old(self).free@[k] == p2;
                if old(self).next_free is Some {
                    assert(k != 0);
                    assert(self.free@[k - 1] == p2);
                } else {
                    assert(self.free@[k] == p2);
                }
            }
            assert(self@ =~= seq![item] + old(self)@) by {
                assert forall|i: int| 0 < i < n + 1 implies self@[i] == old(self)@[i - 1] by {
                    assert(old(self).node_wf(i - 1));
                }
            }
        }
        Index::new(pos, gen)
    }

    /// Removes the item at this index and returns it, provided the index is
    /// still valid; a stale or out-of-range index leaves the list untouched
    /// and returns `None`. On success the slot is prepended to the free
    /// list — the most recently freed slot is always the next one reused —
    /// and the container's generation grows by one, which is what retires
    /// every handle still pointing at the vacated slot.
    pub fn remove(&mut self, index: Index<T>) -> (r: Option<T>)
        requires
            old(self).wf(),
            old(self).generation < usize::MAX,
        ensures
            final(self).wf(),
            !old(self).handle_live(index) ==> r is None && *final(self) == *old(self),
            old(self).handle_live(index) ==> ({
                let k = old(self).order_pos(index.index);
                &&& r == Some(old(self).item_at(index.index))
                &&& final(self).order@ == old(self).order@.remove(k)
                &&& final(self)@ == old(self)@.remove(k)
                &&& final(self).generation == old(self).generation + 1
                &&& index.generation < final(self).generation
                &&& final(self).next_free == Some(index.index)
                &&& final(self).free@ == seq![index.index] + old(self).free@
                &&& final(self).num_slots() == old(self).num_slots()
                &&& !final(self).handle_live(index)
                &&& forall|h2: Index<T>|
                    #[trigger] old(self).handle_live(h2) && h2.index != index.index
                        ==> final(self).handle_live(h2)
                        && final(self).item_at(h2.index) == old(self).item_at(h2.index)
                &&& forall|h2: Index<T>|
                    !old(self).handle_live(h2) ==> !(#[trigger] final(self).handle_live(h2))
            }),
    {
        let pos = index.index;
        if pos >= self.contents.len() {
            return None;
        }
        let (prv, nxt) = match &self.contents[pos] {
            Entry::Free { .. } => {
                return None;
            },
            Entry::Occupied(e) => {
                if e.generation != index.generation {
                    return None;
                }
                (e.prev, e.next)
            },
        };
        let ghost ord0 = self.order@;
        let ghost fr0 = self.free@;
        let ghost n = ord0.len() as int;
        let ghost k = self.order_pos(pos);
        proof {
            self.lemma_handle_position(index);
            assert(self.node_wf(k));
            if k > 0 {
                assert(self.node_wf(k - 1));
            }
            if k + 1 < n {
                assert(self.node_wf(k + 1));
            }
            assert forall|j: int| 0 <= j < fr0.len() implies fr0[j] != pos by {
                assert(old(self).free_node_wf(j));
            }
        }
        let mut taken = Entry::Free { next_free: self.next_free };
        self.contents.set_and_swap(pos, &mut taken);
        self.next_free = Some(pos);
        self.generation = self.generation + 1;
        match (prv, nxt) {
            (None, None) => {
                self.head = None;
                self.tail = None;
            },
            (None, Some(np)) => {
                self.set_prev(np, None);
                self.head = Some(np);
            },
            (Some(pp), None) => {
                self.set_next(pp, None);
                self.tail = Some(pp);
            },
            (Some(pp), Some(np)) => {
                self.set_prev(np, Some(pp));
                self.set_next(pp, Some(np));
            },
        }
        proof {
            self.order@ = ord0.remove(k);
            self.free@ = seq![pos] + fr0;
            ord0.remove_ensures(k);
            old(self)@.remove_ensures(k);
            assert forall|i: int| 0 <= i < self.order@.len() implies self.node_wf(i) by {
                if i < k - 1 {
                    assert(old(self).node_wf(i));
                } else if i == k - 1 {
                    assert(old(self).node_wf(k - 1));
                } else if i == k {
                    assert(old(self).node_wf(k + 1));
                } else {
                    assert(old(self).node_wf(i + 1));
                    assert(old(self).node_wf(i));
                    assert(old(self).node_wf(i + 2) || i + 2 >= n);
                }
            }
            assert(self.order@.no_duplicates());
            assert forall|k2: int| 0 <= k2 < self.free@.len() implies self.free_node_wf(k2) by {
                if k2 > 0 {
                    assert(old(self).free_node_wf(k2 - 1));
                }
            }
            assert forall|p2: usize|
                (p2 as int) < self.num_slots() && self.contents@[p2 as int] is Occupied
                implies #[trigger] self.order@.contains(p2) by {
                assert(old(self).contents@[p2 as int] is Occupied);
                assert(ord0.contains(p2));
                let j = choose|j: int| 0 <= j < ord0.len() && ord0[j] == p2;
                assert(j != k);
                if j < k {
                    assert(self.order@[j] == p2);
                } else {
                    assert(self.order@[j - 1] == p2);
                }
            }
            assert forall|p2: usize|
                (p2 as int) < self.num_slots() && self.contents@[p2 as int] is Free
                implies #[trigger] self.free@.contains(p2) by {
                if p2 == pos {
                    assert(self.free@[0] == p2);
                } else {
                    assert(old(self).contents@[p2 as int] is Free);
                    assert(fr0.contains(p2));
                    let j = choose|j: int| 0 <= j < fr0.len() && fr0[j] == p2;
                    assert(self.free@[j + 1] == p2);
                }
            }
            assert forall|h2: Index<T>| #[trigger]
                old(self).handle_live(h2) && h2.index != index.index implies self.handle_live(h2)
                && self.item_at(h2.index) == old(self).item_at(h2.index) by {
                assert(self.contents@[h2.index as int] is Occupied);
            }
            assert(self@ =~= old(self)@.remove(k)) by {
                assert forall|i: int| 0 <= i < self@.len() implies self@[i]
                    == old(self)@.remove(k)[i] by {
                    if i < k {
                        assert(old(self).node_wf(i));
                    } else {
                        assert(old(self).node_wf(i + 1));
                    }
                }
            }
        }
        match taken {
            Entry::Occupied(e) => Some(e.item),
            Entry::Free { .. } => unreached(),
        }
    }

    /// Removes the head of the list and returns it, or `None` if the list
    /// is empty. Exactly like `remove` on the head's own handle: the freed
    /// slot goes to the front of the free list and the generation grows by
    /// one.
    pub fn pop_front(&mut self) -> (r: Option<T>)
        requires
            old(self).wf(),
            old(self).generation < usize::MAX,
        ensures
            final(self).wf(),
            old(self)@.len() == 0 ==> r is None && *final(self) == *old(self),
            old(self)@.len() > 0 ==> ({
                &&& r == Some(old(self)@[0])
                &&& final(self)@ == old(self)@.drop_first()
                &&& final(self).order@ == old(self).order@.drop_first()
                &&& final(self).generation == old(self).generation + 1
                &&& final(self).next_free == Some(old(self).order@[0])
                &&& final(self).free@ == seq![old(self).order@[0]] + old(self).free@
                &&& final(self).num_slots() == old(self).num_slots()
                &&& forall|h2: Index<T>|
                    #[trigger] old(self).handle_live(h2) && h2.index != old(self).order@[0]
                        ==> final(self).handle_live(h2)
                        && final(self).item_at(h2.index) == old(self).item_at(h2.index)
                &&& forall|h2: Index<T>|
                    !old(self).handle_live(h2) ==> !(#[trigger] final(self).handle_live(h2))
            }),
    {
        let h = match self.head_index() {
            None => {
                return None;
            },
            Some(h) => h,
        };
        proof {
            self.lemma_handle_position(h);
            assert(self.order_pos(h.index) == 0);
        }
        let r = self.remove(h);
        proof {
            if old(self)@.len() > 0 {
                assert(final(self).order@ =~= old(self).order@.drop_first());
                assert(final(self)@ =~= old(self)@.drop_first());
            }
        }
        r
    }

    /// Inserts an element immediately before the element this index points
    /// at and returns a handle to the new element; returns `None` and
    /// changes nothing if the index is stale or out of range. The slot is
    /// chosen exactly as in `push_back`.
    pub fn insert_before(&mut self, index: Index<T>, item: T) -> (r: Option<Index<T>>)
        requires
            old(self).wf(),
        ensures
            final(self).wf(),
            !old(self).handle_live(index) ==> r is None && *final(self) == *old(self),
            old(self).handle_live(index) ==> ({
                let k = old(self).order_pos(index.index);
                &&& r matches Some(h)
                &&& h.generation == old(self).generation
                &&& final(self).order@ == old(self).order@.insert(k, h.index)
                &&& final(self)@ == old(self)@.insert(k, item)
                &&& final(self).handle_live(h)
                &&& final(self).spec_get(h) == Some(item)
                &&& final(self).generation == old(self).generation
                &&& (old(self).next_free matches Some(p) ==> h.index == p
                    && final(self).num_slots() == old(self).num_slots())
                &&& (old(self).next_free is None ==> h.index as int == old(self).num_slots()
                    && final(self).num_slots() == old(self).num_slots() + 1)
                &&& forall|h2: Index<T>| #[trigger]
                    old(self).handle_live(h2) ==> final(self).handle_live(h2)
                        && final(self).item_at(h2.index) == old(self).item_at(h2.index)
                &&& forall|h2: Index<T>|
                    !old(self).handle_live(h2) && h2.generation != old(self).generation
                        ==> !(#[trigger] final(self).handle_live(h2))
            }),
    {
        let pos_t = index.index;
        if pos_t >= self.contents.len() {
            return None;
        }
        let prv = match &self.contents[pos_t] {
            Entry::Free { .. } => {
                return None;
            },
            Entry::Occupied(e) => {
                if e.generation != index.generation {
                    return None;
                }
                e.prev
            },
        };
        let ghost ord0 = self.order@;
        let ghost n = ord0.len() as int;
        let ghost k = self.order_pos(pos_t);
        proof {
            self.lemma_handle_position(index);
            assert(self.node_wf(k));
            if k > 0 {
                assert(self.node_wf(k - 1));
            }
        }
        let gen = self.generation;
        let pos = self.alloc_slot(item, Some(pos_t), prv);
        proof {
            assert forall|i: int| 0 <= i < ord0.len() implies ord0[i] != pos by {
                assert(old(self).node_wf(i));
            }
        }
        self.set_prev(pos_t, Some(pos));
        match prv {
            Some(pp) => {
                self.set_next(pp, Some(pos));
            },
            None => {
                self.head = Some(pos);
            },
        }
        proof {
            self.order@ = ord0.insert(k, pos);
            ord0.insert_ensures(k, pos);
            old(self)@.insert_ensures(k, item);
            assert forall|i: int| 0 <= i < self.order@.len() implies self.node_wf(i) by {
                if i < k - 1 {
                    assert(old(self).node_wf(i));
                } else if i == k - 1 {
                    assert(old(self).node_wf(k - 1));
                } else if i == k + 1 {
                    assert(old(self).node_wf(k));
                } else if i > k + 1 {
                    assert(old(self).node_wf(i - 1));
                }
            }
            assert(self.order@.no_duplicates());
            assert forall|p2: usize|
                (p2 as int) < self.num_slots() && self.contents@[p2 as int] is Occupied
                implies #[trigger] self.order@.contains(p2) by {
                if p2 == pos {
                    assert(self.order@[k] == p2);
                } else {
                    assert(old(self).contents@[p2 as int] is Occupied);
                    assert(ord0.contains(p2));
                    let j = choose|j: int| 0 <= j < ord0.len() && ord0[j] == p2;
                    if j < k {
                        assert(self.order@[j] == p2);
                    } else {
                        assert(self.order@[j + 1] == p2);
                    }
                }
            }
            assert forall|h2: Index<T>| #[trigger]
                old(self).handle_live(h2) implies self.handle_live(h2) && self.item_at(h2.index)
                == old(self).item_at(h2.index) by {
                assert(self.contents@[h2.index as int] is Occupied);
            }
            assert forall|k2: int| 0 <= k2 < self.free@.len() implies self.free_node_wf(k2) by {
                if old(self).next_free is Some {
                    assert(old(self).free_node_wf(k2 + 1));
                    assert(old(self).free@[k2 + 1] != old(self).free@[0]);
                } else {
                    assert(old(self).free_node_wf(k2));
                }
            }
            assert forall|p2: usize|
                (p2 as int) < self.num_slots() && self.contents@[p2 as int] is Free
                implies #[trigger] self.free@.contains(p2) by {
                assert(old(self).contents@[p2 as int] is Free);
                assert(old(self).free@.contains(p2));
                let j = choose|j: int| 0 <= j < old(self).free@.len() && old(self).free@[j] == p2;
                if old(self).next_free is Some {
                    assert(j != 0);
                    assert(self.free@[j - 1] == p2);
                } else {
                    assert(self.free@[j] == p2);
                }
            }
            assert(self@ =~= old(self)@.insert(k, item)) by {
                assert forall|i: int| 0 <= i < self@.len() && i != k implies self@[i]
                    == old(self)@.insert(k, item)[i] by {
                    if i < k {
                        assert(old(self).node_wf(i));
                    } else {
                        assert(old(self).node_wf(i - 1));
                    }
                }
            }
        }
        Some(Index::new(pos, gen))
    }

    /// Inserts an element immediately after the element this index points
    /// at and returns a handle to the new element; returns `None` and
    /// changes nothing if the index is stale or out of range. The slot is
    /// chosen exactly as in `push_back`.
    pub fn insert_after(&mut self, index: Index<T>, item: T) -> (r: Option<Index<T>>)
        requires
            old(self).wf(),
        ensures
            final(self).wf(),
            !old(self).handle_live(index) ==> r is None && *final(self) == *old(self),
            old(self).handle_live(index) ==> ({
                let k = old(self).order_pos(index.index);
                &&& r matches Some(h)
                &&& h.generation == old(self).generation
                &&& final(self).order@ == old(self).order@.insert(k + 1, h.index)
                &&& final(self)@ == old(self)@.insert(k + 1, item)
                &&& final(self).handle_live(h)
                &&& final(self).spec_get(h) == Some(item)
                &&& final(self).generation == old(self).generation
                &&& (old(self).next_free matches Some(p) ==> h.index == p
                    && final(self).num_slots() == old(self).num_slots())
                &&& (old(self).next_free is None ==> h.index as int == old(self).num_slots()
                    && final(self).num_slots() == old(self).num_slots() + 1)
                &&& forall|h2: Index<T>| #[trigger]
                    old(self).handle_live(h2) ==> final(self).handle_live(h2)
                        && final(self).item_at(h2.index) == old(self).item_at(h2.index)
                &&& forall|h2: Index<T>|
                    !old(self).handle_live(h2) && h2.generation != old(self).generation
                        ==> !(#[trigger] final(self).handle_live(h2))
            }),
    {
        let pos_t = index.index;
        if pos_t >= self.contents.len() {
            return None;
        }
        let nxt = match &self.contents[pos_t] {
            Entry::Free { .. } => {
                return None;
            },
            Entry::Occupied(e) => {
                if e.generation != index.generation {
                    return None;
                }
                e.next
            },
        };
        let ghost ord0 = self.order@;
        let ghost n = ord0.len() as int;
        let ghost k = self.order_pos(pos_t);
        proof {
            self.lemma_handle_position(index);
            assert(self.node_wf(k));
            if k + 1 < n {
                assert(self.node_wf(k + 1));
            }
        }
        let gen = self.generation;
        let pos = self.alloc_slot(item, nxt, Some(pos_t));
        proof {
            assert forall|i: int| 0 <= i < ord0.len() implies ord0[i] != pos by {
                assert(old(self).node_wf(i));
            }
        }
        self.set_next(pos_t, Some(pos));
        match nxt {
            Some(np) => {
                self.set_prev(np, Some(pos));
            },
            None => {
                self.tail = Some(pos);
            },
        }
        proof {
            self.order@ = ord0.insert(k + 1, pos);
            ord0.insert_ensures(k + 1, pos);
            old(self)@.insert_ensures(k + 1, item);
            assert forall|i: int| 0 <= i < self.order@.len() implies self.node_wf(i) by {
                if i < k {
                    assert(old(self).node_wf(i));
                } else if i == k {
                    assert(old(self).node_wf(k));
                } else if i == k + 2 {
                    assert(old(self).node_wf(k + 1));
                } else if i > k + 2 {
                    assert(old(self).node_wf(i - 1));
                }
            }
            assert(self.order@.no_duplicates());
            assert forall|p2: usize|
                (p2 as int) < self.num_slots() && self.contents@[p2 as int] is Occupied
                implies #[trigger] self.order@.contains(p2) by {
                if p2 == pos {
                    assert(self.order@[k + 1] == p2);
                } else {
                    assert(old(self).contents@[p2 as int] is Occupied);
                    assert(ord0.contains(p2));
                    let j = choose|j: int| 0 <= j < ord0.len() && ord0[j] == p2;
                    if j < k + 1 {
                        assert(self.order@[j] == p2);
                    } else {
                        assert(self.order@[j + 1] == p2);
                    }
                }
            }
            assert forall|h2: Index<T>| #[trigger]
                old(self).handle_live(h2) implies self.handle_live(h2) && self.item_at(h2.index)
                == old(self).item_at(h2.index) by {
                assert(self.contents@[h2.index as int] is Occupied);
            }
            assert forall|k2: int| 0 <= k2 < self.free@.len() implies self.free_node_wf(k2) by {
                if old(self).next_free is Some {
                    assert(old(self).free_node_wf(k2 + 1));
                    assert(old(self).free@[k2 + 1] != old(self).free@[0]);
                } else {
                    assert(old(self).free_node_wf(k2));
                }
            }
            assert forall|p2: usize|
                (p2 as int) < self.num_slots() && self.contents@[p2 as int] is Free
                implies #[trigger] self.free@.contains(p2) by {
                assert(old(self).contents@[p2 as int] is Free);
                assert(old(self).free@.contains(p2));
                let j = choose|j: int| 0 <= j < old(self).free@.len() && old(self).free@[j] == p2;
                if old(self).next_free is Some {
                    assert(j != 0);
                    assert(self.free@[j - 1] == p2);
                } else {
                    assert(self.free@[j] == p2);
                }
            }
            assert(self@ =~= old(self)@.insert(k + 1, item)) by {
                assert forall|i: int| 0 <= i < self@.len() && i != k + 1 implies self@[i]
                    == old(self)@.insert(k + 1, item)[i] by {
                    if i < k + 1 {
                        assert(old(self).node_wf(i));
                    } else {
                        assert(old(self).node_wf(i - 1));
                    }
                }
            }
        }
        Some(Index::new(pos, gen))
    }

    /// Returns a reference to the item at this index, if the index is still
    /// valid: its slot must be occupied at the very generation the index
    /// carries.
    pub fn get(&self, index: Index<T>) -> (r: Option<&T>)
        ensures
            self.handle_live(index) ==> (r matches Some(v) && *v == self.item_at(index.index)),
            !self.handle_live(index) ==> r is None,
    {
        if index.index < self.contents.len() {
            match &self.contents[index.index] {
                Entry::Occupied(e) => {
                    if e.generation == index.generation {
                        Some(&e.item)
                    } else {
                        None
                    }
                },
                Entry::Free { .. } => None,
            }
        } else {
            None
        }
    }

    /// Returns a reference to the first item in the list, or `None` if the
    /// list is empty.
    pub fn head(&self) -> (r: Option<&T>)
        requires
            self.wf(),
        ensures
            self@.len() == 0 ==> r is None,
            self@.len() > 0 ==> (r matches Some(v) && *v == self@[0]),
    {
        match self.head {
            None => None,
            Some(p) => {
                proof {
                    assert(self.node_wf(0));
                }
                match &self.contents[p] {
                    Entry::Occupied(e) => Some(&e.item),
                    Entry::Free { .. } => unreached(),
                }
            },
        }
    }

    /// Returns a handle to the first element, or `None` if the list is
    /// empty.
    pub fn head_index(&self) -> (r: Option<Index<T>>)
        requires
            self.wf(),
        ensures
            self@.len() == 0 ==> r is None,
            self@.len() > 0 ==> r == Some(self.handle_for(self.order@[0]))
                && self.handle_live(self.handle_for(self.order@[0])),
    {
        match self.head {
            None => None,
            Some(p) => {
                proof {
                    assert(self.node_wf(0));
                }
                match &self.contents[p] {
                    Entry::Occupied(e) => Some(Index::new(p, e.generation)),
                    Entry::Free { .. } => unreached(),
                }
            },
        }
    }

    /// Returns a handle to the last element, or `None` if the list is
    /// empty.
    pub fn tail_index(&self) -> (r: Option<Index<T>>)
        requires
            self.wf(),
        ensures
            self@.len() == 0 ==> r is None,
            self@.len() > 0 ==> r == Some(self.handle_for(self.order@[self.order@.len() - 1]))
                && self.handle_live(self.handle_for(self.order@[self.order@.len() - 1])),
    {
        match self.tail {
            None => None,
            Some(p) => {
                proof {
                    assert(self.node_wf(self.order@.len() - 1));
                }
                match &self.contents[p] {
                    Entry::Occupied(e) => Some(Index::new(p, e.generation)),
                    Entry::Free { .. } => unreached(),
                }
            },
        }
    }
}

impl<T> IndexList<T> {
    /// Returns the handle of the element after the one this index points
    /// at, stamped with that neighbour's own generation; `None` if this
    /// index is stale or points at the last element.
    pub fn next_index(&self, index: Index<T>) -> (r: Option<Index<T>>)
        requires
            self.wf(),
        ensures
            r == self.spec_next_index(index),
    {
        let pos = index.index;
        if pos >= self.contents.len() {
            return None;
        }
        let nxt = match &self.contents[pos] {
            Entry::Free { .. } => {
                return None;
            },
            Entry::Occupied(e) => {
                if e.generation != index.generation {
                    return None;
                }
                e.next
            },
        };
        proof {
            self.lemma_handle_position(index);
            assert(self.node_wf(self.order_pos(pos)));
        }
        match nxt {
            None => None,
            Some(np) => {
                proof {
                    assert(self.node_wf(self.order_pos(pos) + 1));
                }
                match &self.contents[np] {
                    Entry::Occupied(e) => Some(Index::new(np, e.generation)),
                    Entry::Free { .. } => unreached(),
                }
            },
        }
    }

    /// Returns the handle of the element before the one this index points
    /// at, stamped with that neighbour's own generation; `None` if this
    /// index is stale or points at the first element.
    pub fn prev_index(&self, index: Index<T>) -> (r: Option<Index<T>>)
        requires
            self.wf(),
        ensures
            r == self.spec_prev_index(index),
    {
        let pos = index.index;
        if pos >= self.contents.len() {
            return None;
        }
        let prv = match &self.contents[pos] {
            Entry::Free { .. } => {
                return None;
            },
            Entry::Occupied(e) => {
                if e.generation != index.generation {
                    return None;
                }
                e.prev
            },
        };
        proof {
            self.lemma_handle_position(index);
            assert(self.node_wf(self.order_pos(pos)));
        }
        match prv {
            None => None,
            Some(pp) => {
                proof {
                    assert(self.node_wf(self.order_pos(pos) - 1));
                }
                match &self.contents[pp] {
                    Entry::Occupied(e) => Some(Index::new(pp, e.generation)),
                    Entry::Free { .. } => unreached(),
                }
            },
        }
    }

    /// Rewriting the element of one occupied slot — leaving its links, its
    /// generation, every other slot and all the bookkeeping as they were —
    /// keeps the container well formed and only swaps that element in the
    /// list's view.
    proof fn lemma_item_update(pre: Self, post: Self, p: usize)
        requires
            pre.wf(),
            pre.slot_occupied(p),
            post.contents@ == pre.contents@.update(
                p as int,
                Entry::Occupied(
                    OccupiedEntry {
                        item: post.contents@[p as int]->Occupied_0.item,
                        generation: pre.slot(p).generation,
                        next: pre.slot(p).next,
                        prev: pre.slot(p).prev,
                    },
                ),
            ),
            post.generation == pre.generation,
            post.next_free == pre.next_free,
            post.head == pre.head,
            post.tail == pre.tail,
            post.order == pre.order,
            post.free == pre.free,
        ensures
            post.wf(),
            post@ == pre@.update(pre.order_pos(p), post.slot(p).item),
    {
        pre.lemma_handle_position(
            Index { index: p, generation: pre.slot(p).generation, _marker: PhantomData },
        );
        let k = pre.order_pos(p);
        assert forall|i: int| 0 <= i < post.order@.len() implies post.node_wf(i) by {
            assert(pre.node_wf(i));
        }
        assert forall|k2: int| 0 <= k2 < post.free@.len() implies post.free_node_wf(k2) by {
            assert(pre.free_node_wf(k2));
        }
        assert forall|p2: usize|
            (p2 as int) < post.num_slots() && post.contents@[p2 as int] is Occupied
            implies #[trigger] post.order@.contains(p2) by {
            assert(pre.contents@[p2 as int] is Occupied);
        }
        assert forall|p2: usize|
            (p2 as int) < post.num_slots() && post.contents@[p2 as int] is Free
            implies #[trigger] post.free@.contains(p2) by {
            assert(pre.contents@[p2 as int] is Free);
        }
        assert(post@ =~= pre@.update(k, post.slot(p).item)) by {
            assert forall|i: int| 0 <= i < post@.len() && i != k implies post@[i] == pre@[i] by {
                assert(pre.node_wf(i));
            }
            assert(post@[k] == post.slot(p).item);
        }
    }

    /// Returns a mutable reference to the item at this index, if the index
    /// is still valid; the caller's writes through it touch that one
    /// element and nothing else.
    pub fn get_mut(&mut self, index: Index<T>) -> (r: Option<&mut T>)
        requires
            old(self).wf(),
        ensures
            final(self).wf(),
            final(self)@ == if old(self).handle_live(index) {
                old(self)@.update(old(self).order_pos(index.index), *final(r.unwrap()))
            } else {
                old(self)@
            },
            !old(self).handle_live(index) ==> r is None && *final(self) == *old(self),
            old(self).handle_live(index) ==> ({
                &&& r is Some
                &&& *r.unwrap() == old(self).item_at(index.index)
                &&& final(self).contents@ == old(self).contents@.update(
                    index.index as int,
                    Entry::Occupied(
                        OccupiedEntry {
                            item: *final(r.unwrap()),
                            generation: index.generation,
                            next: old(self).slot(index.index).next,
                            prev: old(self).slot(index.index).prev,
                        },
                    ),
                )
                &&& final(self).generation == old(self).generation
                &&& final(self).head == old(self).head
                &&& final(self).tail == old(self).tail
                &&& final(self).next_free == old(self).next_free
                &&& final(self).order == old(self).order
                &&& final(self).free == old(self).free
            }),
    {
        let pos = index.index;
        if pos >= self.contents.len() {
            return None;
        }
        let ok = match &self.contents[pos] {
            Entry::Occupied(e) => e.generation == index.generation,
            Entry::Free { .. } => false,
        };
        if !ok {
            return None;
        }
        let r = match &mut self.contents[pos] {
            Entry::Occupied(e) => &mut e.item,
            Entry::Free { .. } => unreached(),
        };
        proof {
            Self::lemma_item_update(*old(self), after_borrow(*self), pos);
        }
        Some(r)
    }

    /// Returns a mutable reference to the first item in the list, or
    /// `None` if the list is empty.
    pub fn head_mut(&mut self) -> (r: Option<&mut T>)
        requires
            old(self).wf(),
        ensures
            final(self).wf(),
            old(self)@.len() == 0 ==> r is None && *final(self) == *old(self),
            old(self)@.len() > 0 ==> ({
                &&& r is Some
                &&& *r.unwrap() == old(self)@[0]
                &&& final(self)@ == old(self)@.update(0, *final(r.unwrap()))
                &&& final(self).generation == old(self).generation
                &&& final(self).head == old(self).head
                &&& final(self).tail == old(self).tail
                &&& final(self).next_free == old(self).next_free
                &&& final(self).order == old(self).order
                &&& final(self).free == old(self).free
            }),
    {
        let p = match self.head {
            None => {
                return None;
            },
            Some(p) => p,
        };
        proof {
            assert(self.node_wf(0));
            self.lemma_handle_position(self.handle_for(p));
            assert(self.order_pos(p) == 0);
        }
        let r = match &mut self.contents[p] {
            Entry::Occupied(e) => &mut e.item,
            Entry::Free { .. } => unreached(),
        };
        proof {
            Self::lemma_item_update(*old(self), after_borrow(*self), p);
        }
        Some(r)
    }

    /// Returns the items of the list, in list order, as a vector of
    /// references. Collecting them up front stands in for a lazy iterator:
    /// handing out a type that implements `Iterator` is beyond what the
    /// verifier accepts.
    pub fn iter(&self) -> (r: Vec<&T>)
        requires
            self.wf(),
        ensures
            r@.len() == self@.len(),
            forall|i: int| 0 <= i < r@.len() ==> *(#[trigger] r@[i]) == self@[i],
    {
        let mut v: Vec<&T> = Vec::new();
        let mut cur = self.head;
        let ghost mut k: int = 0;
        while cur.is_some()
            invariant
                self.wf(),
                0 <= k <= self@.len(),
                v@.len() == k,
                forall|i: int| 0 <= i < k ==> *(#[trigger] v@[i]) == self@[i],
                cur == if k == self@.len() {
                    None::<usize>
                } else {
                    Some(self.order@[k])
                },
            decreases self@.len() - k,
        {
            let p = cur.unwrap();
            proof {
                assert(self.node_wf(k));
            }
            match &self.contents[p] {
                Entry::Occupied(e) => {
                    v.push(&e.item);
                    cur = e.next;
                },
                Entry::Free { .. } => unreached(),
            }
            proof {
                k = k + 1;
            }
        }
        v
    }

    /// Consumes the list and returns an iterator over its items, in list
    /// order.
    pub fn into_iter(self) -> (it: IntoIter<T>)
        requires
            self.wf(),
        ensures
            it@ == self@,
    {
        let ghost orig = self;
        let mut l = self;
        let mut v: Vec<T> = Vec::new();
        let ghost n = orig@.len() as int;
        let mut cur = l.tail;
        let ghost mut k: int = n;
        while cur.is_some()
            invariant
                orig.wf(),
                0 <= k <= n,
                n == orig@.len(),
                l.contents@.len() == orig.contents@.len(),
                forall|j: int| #![trigger orig.order@[j]]
                    0 <= j < k ==> l.contents@[orig.order@[j] as int]
                        == orig.contents@[orig.order@[j] as int],
                v@.len() == n - k,
                forall|i: int| 0 <= i < n - k ==> #[trigger] v@[i] == orig@[n - 1 - i],
                cur == if k == 0 {
                    None::<usize>
                } else {
                    Some(orig.order@[k - 1])
                },
            decreases k,
        {
            let p = cur.unwrap();
            proof {
                assert(orig.node_wf(k - 1));
            }
            let mut taken = Entry::Free { next_free: None };
            l.contents.set_and_swap(p, &mut taken);
            match taken {
                Entry::Occupied(e) => {
                    v.push(e.item);
                    cur = e.prev;
                },
                Entry::Free { .. } => unreached(),
            }
            proof {
                k = k - 1;
                assert forall|j: int| #![trigger orig.order@[j]]
                    0 <= j < k implies l.contents@[orig.order@[j] as int]
                    == orig.contents@[orig.order@[j] as int] by {
                    assert(orig.node_wf(j));
                    assert(orig.node_wf(k));
                    assert(orig.order@[j] != orig.order@[k]);
                }
            }
        }
        let it = IntoIter { items: v };
        proof {
            assert(it@ =~= orig@);
        }
        it
    }

    /// No position is reachable from both chains at once: the live chain
    /// threads occupied slots only, the free chain free slots only.
    pub proof fn lemma_chains_disjoint(self, i: int, k: int)
        requires
            self.wf(),
            0 <= i < self.order@.len(),
            0 <= k < self.free@.len(),
        ensures
            self.order@[i] != self.free@[k],
    {
        assert(self.node_wf(i));
        assert(self.free_node_wf(k));
    }

    /// A live handle never runs ahead of the container: its generation is
    /// at most the container's. Removal bumps the counter past every
    /// handle into the vacated slot, and insertion stamps the current
    /// counter, so a handle retired by `remove` can never be live again.
    pub proof fn lemma_live_handle_generation(self, h: Index<T>)
        requires
            self.wf(),
            self.handle_live(h),
        ensures
            h.generation <= self.generation,
    {
        self.lemma_handle_position(h);
        assert(self.node_wf(self.order_pos(h.index)));
    }

    /// Structural symmetry, forward then backward: for a live handle with a
    /// successor, stepping to the next element and back again returns the
    /// very same handle.
    pub proof fn lemma_next_then_prev(self, h: Index<T>)
        requires
            self.wf(),
            self.handle_live(h),
            self.spec_next_index(h) is Some,
        ensures
            self.spec_prev_index(self.spec_next_index(h)->0) == Some(h),
    {
        self.lemma_handle_position(h);
        let k = self.order_pos(h.index);
        let h2 = self.spec_next_index(h)->0;
        assert(self.node_wf(k + 1));
        assert(self.order@[k + 1] == h2.index);
        let j = self.order_pos(h2.index);
        assert(0 <= j < self.order@.len() && self.order@[j] == h2.index);
        assert(j == k + 1);
        assert(self.handle_for(h.index) == h);
    }

    /// Structural symmetry, backward then forward: for a live handle with a
    /// predecessor, stepping to the previous element and back again returns
    /// the very same handle.
    pub proof fn lemma_prev_then_next(self, h: Index<T>)
        requires
            self.wf(),
            self.handle_live(h),
            self.spec_prev_index(h) is Some,
        ensures
            self.spec_next_index(self.spec_prev_index(h)->0) == Some(h),
    {
        self.lemma_handle_position(h);
        let k = self.order_pos(h.index);
        let h2 = self.spec_prev_index(h)->0;
        assert(self.node_wf(k - 1));
        assert(self.order@[k - 1] == h2.index);
        let j = self.order_pos(h2.index);
        assert(0 <= j < self.order@.len() && self.order@[j] == h2.index);
        assert(j == k - 1);
        assert(self.handle_for(h.index) == h);
    }
}

impl<T> View for IndexList<T> {
    type V = Seq<T>;

    /// The live elements, in list order.
    open spec fn view(&self) -> Seq<T> {
        Seq::new(self.order@.len(), |i: int| self.item_at(self.order@[i]))
    }
}

impl<T> Default for IndexList<T> {
    /// The empty list.
    fn default() -> (r: Self)
        ensures
            r.wf(),
            r@ == Seq::<T>::empty(),
            r.num_slots() == 0,
            r.generation == 0,
            r.next_free is None,
            r.head is None,
            r.tail is None,
    {
        IndexList {
            contents: Vec::new(),
            generation: 0,
            next_free: None,
            head: None,
            tail: None,
            order: Ghost(Seq::empty()),
            free: Ghost(Seq::empty()),
        }
    }
}

impl<T: PartialEq> IndexList<T> {
    /// Does this list contain this element? The scan follows the live
    /// chain, so only live elements count. The answer is pinned down when
    /// `T`'s equality obeys its specification (as every std scalar's does).
    pub fn contains(&self, value: &T) -> (r: bool)
        requires
            self.wf(),
        ensures
            T::obeys_eq_spec() ==> (r <==> exists|j: int|
                0 <= j < self@.len() && (#[trigger] self@[j].eq_spec(value))),
    {
        self.index_of(value).is_some()
    }

    /// Returns a handle to the first element of the list, in list order,
    /// that equals this item; `None` when none does.
    pub fn index_of(&self, item: &T) -> (r: Option<Index<T>>)
        requires
            self.wf(),
        ensures
            T::obeys_eq_spec() ==> ({
                &&& (r is None <==> (forall|j: int|
                    0 <= j < self@.len() ==> !(#[trigger] self@[j].eq_spec(item))))
                &&& (r matches Some(h) ==> (exists|j: int|
                    {
                        &&& 0 <= j < self@.len()
                        &&& (#[trigger] self@[j].eq_spec(item))
                        &&& (forall|i2: int|
                            0 <= i2 < j ==> !(#[trigger] self@[i2].eq_spec(item)))
                        &&& h == self.handle_for(self.order@[j])
                        &&& self.handle_live(h)
                    }))
            }),
    {
        let mut cur = self.head;
        let ghost mut k: int = 0;
        while cur.is_some()
            invariant
                self.wf(),
                0 <= k <= self@.len(),
                T::obeys_eq_spec() ==> (forall|j: int|
                    0 <= j < k ==> !(#[trigger] self@[j].eq_spec(item))),
                cur == if k == self@.len() {
                    None::<usize>
                } else {
                    Some(self.order@[k])
                },
            decreases self@.len() - k,
        {
            let p = cur.unwrap();
            proof {
                assert(self.node_wf(k));
            }
            match &self.contents[p] {
                Entry::Occupied(e) => {
                    if e.item == *item {
                        proof {
                            assert(self@[k] == self.item_at(p));
                            if T::obeys_eq_spec() {
                                assert(self@[k].eq_spec(item));
                            }
                        }
                        return Some(Index::new(p, e.generation));
                    }
                    cur = e.next;
                },
                Entry::Free { .. } => unreached(),
            }
            proof {
                k = k + 1;
            }
        }
        None
    }
}

/// Two slot-table entries agree field for field; the stored items compare
/// by `T`'s own equality specification.
pub open spec fn entry_eq_spec<T: PartialEq>(a: Entry<T>, b: Entry<T>) -> bool {
    match (a, b) {
        (Entry::Free { next_free: x }, Entry::Free { next_free: y }) => x == y,
        (Entry::Occupied(x), Entry::Occupied(y)) => {
            &&& x.item.eq_spec(&y.item)
            &&& x.generation == y.generation
            &&& x.next == y.next
            &&& x.prev == y.prev
        },
        _ => false,
    }
}

impl<T: PartialEq> PartialEq for IndexList<T> {
    /// Structural equality: the two slot tables must agree entry for entry
    /// — free slots, links and stored generations included — along with
    /// the generation counters and the chain entry points. Two lists
    /// holding the same live elements in the same order may still differ.
    fn eq(&self, other: &Self) -> (r: bool) {
        if self.generation != other.generation || self.contents.len() != other.contents.len() {
            return false;
        }
        if self.next_free != other.next_free || self.head != other.head || self.tail
            != other.tail {
            return false;
        }
        let mut i: usize = 0;
        while i < self.contents.len()
            invariant
                i <= self.contents@.len(),
                self.contents@.len() == other.contents@.len(),
                T::obeys_eq_spec() ==> forall|j: int|
                    0 <= j < i ==> #[trigger] entry_eq_spec(self.contents@[j], other.contents@[j]),
            decreases self.contents@.len() - i,
        {
            let same = match (&self.contents[i], &other.contents[i]) {
                (Entry::Free { next_free: x }, Entry::Free { next_free: y }) => *x == *y,
                (Entry::Occupied(x), Entry::Occupied(y)) => {
                    x.item == y.item && x.generation == y.generation && x.next == y.next && x.prev
                        == y.prev
                },
                _ => false,
            };
            if !same {
                proof {
                    if T::obeys_eq_spec() {
                        assert(!entry_eq_spec(self.contents@[i as int], other.contents@[i as int]));
                    }
                }
                return false;
            }
            i += 1;
        }
        true
    }
}

impl<T: PartialEq> vstd::std_specs::cmp::PartialEqSpecImpl for IndexList<T> {
    open spec fn obeys_eq_spec() -> bool {
        T::obeys_eq_spec()
    }

    open spec fn eq_spec(&self, other: &Self) -> bool {
        &&& self.generation == other.generation
        &&& self.next_free == other.next_free
        &&& self.head == other.head
        &&& self.tail == other.tail
        &&& self.contents@.len() == other.contents@.len()
        &&& forall|j: int|
            0 <= j < self.contents@.len() ==> #[trigger] entry_eq_spec(
                self.contents@[j],
                other.contents@[j],
            )
    }
}

/// A consuming iterator over the items of an `IndexList<T>`, in list
/// order. It stores what is left to yield, last item first, so that each
/// step pops from the back.
pub struct IntoIter<T> {
    pub items: Vec<T>,
}

impl<T> View for IntoIter<T> {
    type V = Seq<T>;

    /// The items still to be yielded, in the order they will come out.
    open spec fn view(&self) -> Seq<T> {
        self.items@.reverse()
    }
}

impl<T> IntoIter<T> {
    /// Yields the next item, or `None` once every item has been handed
    /// out.
    pub fn next(&mut self) -> (r: Option<T>)
        ensures
            old(self)@.len() == 0 ==> r is None && final(self)@ == old(self)@,
            old(self)@.len() > 0 ==> r == Some(old(self)@[0])
                && final(self)@ == old(self)@.drop_first(),
    {
        let r = self.items.pop();
        proof {
            if old(self).items@.len() > 0 {
                assert(final(self)@ =~= old(self)@.drop_first());
            }
        }
        r
    }
}

} // verus!
