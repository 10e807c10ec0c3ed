//! The term dictionary: interns term values into compact `u32` handles.
//!
//! Every slot of the dictionary is in exactly one of two states: *live*,
//! holding a term value and a reference count, or *free*, holding a link to
//! the next free slot. Slots are never deleted, only transitioned between
//! these two states; the backing array only grows. Freed slots are pushed
//! onto a LIFO free list and reused before the array is grown. Interning is
//! a bijection between live handles and distinct term values.

use vstd::prelude::*;
use vstd::pervasive::VecAdditionalExecFns;
use crate::term::{Term, TermV};

verus! {

/// One dictionary slot: live with a value and a reference count, or free
/// with a link to the next free slot (the dictionary length acting as the
/// "no further slot" sentinel).
enum Slot {
    Live(Term, u32),
    Free(u32),
}

/// An in-memory term dictionary with `u32` handles.
pub struct TermIndexU {
    slots: Vec<Slot>,
    next_free: u32,
    free_list: Ghost<Seq<int>>,
}

impl TermIndexU {
    /// Number of slots ever allocated (live and free together).
    pub closed spec fn n_slots(self) -> nat {
        self.slots@.len()
    }

    /// True when slot `i` currently holds a live term.
    pub closed spec fn is_live(self, i: int) -> bool {
        0 <= i < self.slots@.len() && self.slots@[i] is Live
    }

    /// The term held by live slot `i`.
    pub closed spec fn term_at(self, i: int) -> TermV {
        self.slots@[i]->Live_0@
    }

    /// The reference count of live slot `i`.
    pub closed spec fn rc_at(self, i: int) -> nat {
        self.slots@[i]->Live_1 as nat
    }

    /// The free slots, in the order they would be reused (LIFO).
    pub closed spec fn free_seq(self) -> Seq<int> {
        self.free_list@
    }

    /// The slot the next fresh interning will use: the head of the free
    /// list, or the dictionary length when the array must grow.
    pub open spec fn free_head(self) -> int {
        if self.free_seq().len() == 0 {
            self.n_slots() as int
        } else {
            self.free_seq()[0]
        }
    }

    /// True when some live slot holds the term `t`.
    pub open spec fn has_term(self, t: TermV) -> bool {
        exists|j: int| self.is_live(j) && self.term_at(j) == t
    }

    /// The live slot holding term `t` (meaningful under `has_term`).
    pub open spec fn index_of_term(self, t: TermV) -> int {
        choose|j: int| self.is_live(j) && self.term_at(j) == t
    }

    /// The dictionary invariant: the free list holds exactly the free
    /// slots, chained LIFO from `next_free` and ending at the sentinel;
    /// live slots hold pairwise distinct terms with positive counts.
    pub closed spec fn wf(self) -> bool {
        let fl = self.free_list@;
        let n = self.slots@.len() as int;
        &&& self.slots@.len() <= u32::MAX as nat
        &&& (forall|k: int|
            0 <= k < fl.len() ==> 0 <= #[trigger] fl[k] < n && !(self.slots@[fl[k]] is Live))
        &&& fl.no_duplicates()
        &&& (forall|i: int| 0 <= i < n && !(#[trigger] self.slots@[i] is Live) ==> fl.contains(i))
        &&& (self.next_free as int) == (if fl.len() == 0 {
            n
        } else {
            fl[0]
        })
        &&& (forall|k: int|
            0 <= k < fl.len() ==> (#[trigger] self.slots@[fl[k]]->Free_0) as int == (if k + 1
                == fl.len() {
                n
            } else {
                fl[k + 1]
            }))
        &&& (forall|i: int, j: int|
            self.is_live(i) && self.is_live(j) && i != j ==> #[trigger] self.term_at(i)
                != #[trigger] self.term_at(j))
        &&& (forall|i: int| self.is_live(i) ==> self.rc_at(i) >= 1)
    }

    /// Consequences of the invariant that callers may need without seeing
    /// its definition.
    pub proof fn lemma_wf_facts(&self)
        requires
            self.wf(),
        ensures
            self.n_slots() <= u32::MAX as nat,
            forall|i: int| self.is_live(i) ==> 0 <= i < self.n_slots() && self.rc_at(i) >= 1,
            forall|i: int, j: int|
                self.is_live(i) && self.is_live(j) && i != j ==> #[trigger] self.term_at(i)
                    != #[trigger] self.term_at(j),
            self.free_seq().no_duplicates(),
            forall|k: int|
                0 <= k < self.free_seq().len() ==> 0 <= #[trigger] self.free_seq()[k]
                    < self.n_slots() && !self.is_live(self.free_seq()[k]),
            forall|i: int|
                0 <= i < self.n_slots() && !self.is_live(i) ==> self.free_seq().contains(i),
            0 <= self.free_head() <= self.n_slots(),
            self.free_head() < self.n_slots() ==> !self.is_live(self.free_head()),
    {
    }

    /// An empty dictionary.
    pub fn new() -> (d: TermIndexU)
        ensures
            d.wf(),
            d.n_slots() == 0,
            d.free_seq() == Seq::<int>::empty(),
            forall|i: int| !d.is_live(i),
    {
        Self::default()
    }

    /// The handle of an already-interned term, without touching its
    /// reference count; `None` when the term is not live.
    pub fn get_index(&self, t: &Term) -> (r: Option<u32>)
        requires
            self.wf(),
        ensures
            match r {
                Some(i) => self.is_live(i as int) && self.term_at(i as int) == t@,
                None => !self.has_term(t@),
            },
    {
        proof {
            self.lemma_wf_facts();
        }
        let n = self.slots.len();
        let mut i: usize = 0;
        while i < n
            invariant
                self.wf(),
                n == self.n_slots(),
                0 <= i <= n,
                forall|j: int| 0 <= j < i && self.is_live(j) ==> self.term_at(j) != t@,
            decreases n - i,
        {
            match &self.slots[i] {
                Slot::Live(u, _) => {
                    if u.eq_term(t) {
                        return Some(i as u32);
                    }
                },
                Slot::Free(_) => {},
            }
            i = i + 1;
        }
        None
    }

    /// Interns a term: returns the existing handle (incrementing its
    /// reference count) when the term is already live, else allocates a
    /// slot — reusing the free-list head when one exists, appending
    /// otherwise — with a reference count of one.
    pub fn make_index(&mut self, t: &Term) -> (i: u32)
        requires
            old(self).wf(),
            old(self).n_slots() < u32::MAX as nat,
            forall|j: int|
                old(self).is_live(j) && old(self).term_at(j) == t@ ==> old(self).rc_at(j)
                    < u32::MAX as nat,
        ensures
            final(self).wf(),
            final(self).is_live(i as int),
            final(self).term_at(i as int) == t@,
            old(self).has_term(t@) ==> {
                &&& old(self).is_live(i as int) && old(self).term_at(i as int) == t@
                &&& final(self).rc_at(i as int) == old(self).rc_at(i as int) + 1
                &&& final(self).n_slots() == old(self).n_slots()
                &&& final(self).free_seq() == old(self).free_seq()
            },
            !old(self).has_term(t@) ==> {
                &&& final(self).rc_at(i as int) == 1
                &&& !old(self).is_live(i as int)
                &&& i as int == old(self).free_head()
                &&& (old(self).free_seq().len() > 0 ==> final(self).n_slots()
                    == old(self).n_slots() && final(self).free_seq() == old(
                    self,
                ).free_seq().drop_first())
                &&& (old(self).free_seq().len() == 0 ==> final(self).n_slots()
                    == old(self).n_slots() + 1 && final(self).free_seq() == old(self).free_seq())
            },
            forall|j: int|
                j != i as int ==> #[trigger] final(self).is_live(j) == old(self).is_live(j)
                    && (old(self).is_live(j) ==> final(self).term_at(j) == old(self).term_at(j)
                    && final(self).rc_at(j) == old(self).rc_at(j)),
    {
        proof {
            self.lemma_wf_facts();
        }
        match self.get_index(t) {
            Some(i) => {
                let iu = i as usize;
                let c: u32 = match &self.slots[iu] {
                    Slot::Live(_, c) => *c,
                    Slot::Free(_) => unreached(),
                };
                self.slots.set(iu, Slot::Live(t.duplicate(), c + 1));
                proof {
                    assert forall|a: int, b: int|
                        self.is_live(a) && self.is_live(b) && a != b implies #[trigger] self.term_at(
                        a,
                    ) != #[trigger] self.term_at(b) by {
                        assert(old(self).is_live(a) && old(self).is_live(b));
                        assert(self.term_at(a) == old(self).term_at(a));
                        assert(self.term_at(b) == old(self).term_at(b));
                    }
                    assert forall|a: int| self.is_live(a) implies self.rc_at(a) >= 1 by {
                        if a != iu as int {
                            assert(old(self).is_live(a));
                        }
                    }
                }
                i
            },
            None => {
                let idx = self.next_free;
                let iu = idx as usize;
                if iu == self.slots.len() {
                    self.slots.push(Slot::Live(t.duplicate(), 1));
                    self.next_free = idx + 1;
                    proof {
                        assert forall|a: int, b: int|
                            self.is_live(a) && self.is_live(b) && a != b implies #[trigger] self.term_at(
                            a,
                        ) != #[trigger] self.term_at(b) by {
                            if a == iu as int {
                                assert(self.term_at(a) == t@);
                                assert(old(self).is_live(b));
                                assert(!(old(self).is_live(b) && old(self).term_at(b) == t@));
                            } else if b == iu as int {
                                assert(self.term_at(b) == t@);
                                assert(old(self).is_live(a));
                                assert(!(old(self).is_live(a) && old(self).term_at(a) == t@));
                            } else {
                                assert(old(self).is_live(a) && old(self).is_live(b));
                            }
                        }
                        assert forall|a: int| self.is_live(a) implies self.rc_at(a) >= 1 by {
                            if a != iu as int {
                                assert(old(self).is_live(a));
                            }
                        }
                    }
                } else {
                    let nx: u32 = match &self.slots[iu] {
                        Slot::Free(nx) => *nx,
                        Slot::Live(_, _) => unreached(),
                    };
                    self.slots.set(iu, Slot::Live(t.duplicate(), 1));
                    self.next_free = nx;
                    self.free_list = Ghost(old(self).free_seq().drop_first());
                    proof {
                        let ofl = old(self).free_seq();
                        let fl = self.free_list@;
                        assert forall|j: int|
                            0 <= j < self.slots@.len() && !(#[trigger] self.slots@[j] is Live)
                                implies fl.contains(j) by {
                            assert(ofl.contains(j));
                            let k = choose|k: int| 0 <= k < ofl.len() && ofl[k] == j;
                            assert(k != 0);
                            assert(fl[k - 1] == j);
                        }
                        assert forall|a: int, b: int|
                            self.is_live(a) && self.is_live(b) && a != b implies #[trigger] self.term_at(
                            a,
                        ) != #[trigger] self.term_at(b) by {
                            if a == iu as int {
                                assert(self.term_at(a) == t@);
                                assert(old(self).is_live(b));
                                assert(!(old(self).is_live(b) && old(self).term_at(b) == t@));
                            } else if b == iu as int {
                                assert(self.term_at(b) == t@);
                                assert(old(self).is_live(a));
                                assert(!(old(self).is_live(a) && old(self).term_at(a) == t@));
                            } else {
                                assert(old(self).is_live(a) && old(self).is_live(b));
                            }
                        }
                        assert forall|a: int| self.is_live(a) implies self.rc_at(a) >= 1 by {
                            if a != iu as int {
                                assert(old(self).is_live(a));
                            }
                        }
                    }
                }
                idx
            },
        }
    }
    /// Increments the reference count of live slot `i` (used when a tuple
    /// references a term already interned by another position, without
    /// re-deriving it from a value).
    pub fn inc_ref(&mut self, i: u32)
        requires
            old(self).wf(),
            old(self).is_live(i as int),
            old(self).rc_at(i as int) < u32::MAX as nat,
        ensures
            final(self).wf(),
            final(self).n_slots() == old(self).n_slots(),
            final(self).free_seq() == old(self).free_seq(),
            final(self).is_live(i as int),
            final(self).term_at(i as int) == old(self).term_at(i as int),
            final(self).rc_at(i as int) == old(self).rc_at(i as int) + 1,
            forall|j: int|
                j != i as int ==> #[trigger] final(self).is_live(j) == old(self).is_live(j)
                    && (old(self).is_live(j) ==> final(self).term_at(j) == old(self).term_at(j)
                    && final(self).rc_at(j) == old(self).rc_at(j)),
    {
        proof {
            self.lemma_wf_facts();
        }
        let iu = i as usize;
        let mut tmp = Slot::Free(0);
        self.slots.set_and_swap(iu, &mut tmp);
        match tmp {
            Slot::Live(u, c) => {
                self.slots.set(iu, Slot::Live(u, c + 1));
            },
            Slot::Free(_) => {
                proof {
                    assert(false);
                }
            },
        }
        proof {
            assert forall|k: int| 0 <= k < self.free_seq().len() implies !(
            self.slots@[self.free_seq()[k]] is Live) && (self.slots@[self.free_seq()[k]]
                ->Free_0) == (old(self).slots@[old(self).free_seq()[k]]->Free_0) by {
                assert(old(self).free_seq()[k] != iu as int);
            }
            assert forall|a: int, b: int|
                self.is_live(a) && self.is_live(b) && a != b implies #[trigger] self.term_at(a)
                    != #[trigger] self.term_at(b) by {
                assert(old(self).is_live(a) && old(self).is_live(b));
                assert(self.term_at(a) == old(self).term_at(a));
                assert(self.term_at(b) == old(self).term_at(b));
            }
            assert forall|a: int| self.is_live(a) implies self.rc_at(a) >= 1 by {
                if a != iu as int {
                    assert(old(self).is_live(a));
                }
            }
        }
    }

    /// Decrements the reference count of live slot `i`; when it reaches
    /// zero, the slot is freed and pushed onto the free list (LIFO). The
    /// caller must not release a slot more often than it was retained,
    /// which is why liveness is required.
    pub fn dec_ref(&mut self, i: u32)
        requires
            old(self).wf(),
            old(self).is_live(i as int),
        ensures
            final(self).wf(),
            final(self).n_slots() == old(self).n_slots(),
            old(self).rc_at(i as int) > 1 ==> {
                &&& final(self).is_live(i as int)
                &&& final(self).term_at(i as int) == old(self).term_at(i as int)
                &&& final(self).rc_at(i as int) == old(self).rc_at(i as int) - 1
                &&& final(self).free_seq() == old(self).free_seq()
            },
            old(self).rc_at(i as int) == 1 ==> {
                &&& !final(self).is_live(i as int)
                &&& final(self).free_seq() == seq![i as int] + old(self).free_seq()
            },
            forall|j: int|
                j != i as int ==> #[trigger] final(self).is_live(j) == old(self).is_live(j)
                    && (old(self).is_live(j) ==> final(self).term_at(j) == old(self).term_at(j)
                    && final(self).rc_at(j) == old(self).rc_at(j)),
    {
        proof {
            self.lemma_wf_facts();
        }
        let iu = i as usize;
        let mut tmp = Slot::Free(0);
        self.slots.set_and_swap(iu, &mut tmp);
        match tmp {
            Slot::Live(u, c) => {
                if c > 1 {
                    self.slots.set(iu, Slot::Live(u, c - 1));
                    proof {
                        assert forall|k: int| 0 <= k < self.free_seq().len() implies !(
                        self.slots@[self.free_seq()[k]] is Live) && (self.slots@[self.free_seq()[k]]
                            ->Free_0) == (old(self).slots@[old(self).free_seq()[k]]->Free_0) by {
                            assert(old(self).free_seq()[k] != iu as int);
                        }
                        assert forall|a: int, b: int|
                            self.is_live(a) && self.is_live(b) && a != b implies #[trigger] self.term_at(
                            a,
                        ) != #[trigger] self.term_at(b) by {
                            assert(old(self).is_live(a) && old(self).is_live(b));
                            assert(self.term_at(a) == old(self).term_at(a));
                            assert(self.term_at(b) == old(self).term_at(b));
                        }
                        assert forall|a: int| self.is_live(a) implies self.rc_at(a) >= 1 by {
                            if a != iu as int {
                                assert(old(self).is_live(a));
                            }
                        }
                    }
                } else {
                    self.slots.set(iu, Slot::Free(self.next_free));
                    self.next_free = i;
                    self.free_list = Ghost(seq![i as int] + old(self).free_seq());
                    proof {
                        let ofl = old(self).free_seq();
                        let fl = self.free_list@;
                        assert(!ofl.contains(i as int));
                        assert forall|k: int| 0 <= k < fl.len() implies 0 <= #[trigger] fl[k]
                            < self.slots@.len() && !(self.slots@[fl[k]] is Live) by {
                            if k > 0 {
                                assert(fl[k] == ofl[k - 1]);
                            }
                        }
                        assert forall|j: int|
                            0 <= j < self.slots@.len() && !(#[trigger] self.slots@[j] is Live)
                                implies fl.contains(j) by {
                            if j != i as int {
                                assert(ofl.contains(j));
                                let k = choose|k: int| 0 <= k < ofl.len() && ofl[k] == j;
                                assert(fl[k + 1] == j);
                            } else {
                                assert(fl[0] == i as int);
                            }
                        }
                        assert forall|k: int|
                            0 <= k < fl.len() implies (#[trigger] self.slots@[fl[k]]->Free_0)
                                as int == (if k + 1 == fl.len() {
                                self.slots@.len() as int
                            } else {
                                fl[k + 1]
                            }) by {
                            if k > 0 {
                                assert(fl[k] == ofl[k - 1]);
                            }
                        }
                        assert forall|a: int, b: int|
                            self.is_live(a) && self.is_live(b) && a != b implies #[trigger] self.term_at(
                            a,
                        ) != #[trigger] self.term_at(b) by {
                            assert(old(self).is_live(a) && old(self).is_live(b));
                            assert(self.term_at(a) == old(self).term_at(a));
                            assert(self.term_at(b) == old(self).term_at(b));
                        }
                        assert forall|a: int| self.is_live(a) implies self.rc_at(a) >= 1 by {
                            assert(old(self).is_live(a));
                        }
                    }
                }
            },
            Slot::Free(_) => {
                proof {
                    assert(false);
                }
            },
        }
    }

    /// The term held by live slot `i`; `None` for a free or out-of-range
    /// handle. The reference borrows from the dictionary and is valid only
    /// until the next mutating call.
    pub fn get_term(&self, i: u32) -> (r: Option<&Term>)
        ensures
            match r {
                Some(t) => self.is_live(i as int) && t@ == self.term_at(i as int),
                None => !self.is_live(i as int),
            },
    {
        let iu = i as usize;
        if iu < self.slots.len() {
            match &self.slots[iu] {
                Slot::Live(u, _) => Some(u),
                Slot::Free(_) => None,
            }
        } else {
            None
        }
    }

    /// Number of slots ever allocated, live and free together.
    pub fn slot_count(&self) -> (r: usize)
        ensures
            r == self.n_slots(),
    {
        self.slots.len()
    }

    /// The reference count of live slot `i`; `None` for a free or
    /// out-of-range handle.
    pub fn get_ref_count(&self, i: u32) -> (r: Option<u32>)
        ensures
            match r {
                Some(c) => self.is_live(i as int) && c as nat == self.rc_at(i as int),
                None => !self.is_live(i as int),
            },
    {
        let iu = i as usize;
        if iu < self.slots.len() {
            match &self.slots[iu] {
                Slot::Live(_, c) => Some(*c),
                Slot::Free(_) => None,
            }
        } else {
            None
        }
    }

    /// Releases spare capacity; every handle and count is preserved.
    pub fn shrink_to_fit(&mut self)
        ensures
            *final(self) == *old(self),
    {
        shrink_vec(&mut self.slots);
    }
}

/// Relies on `Vec::shrink_to_fit`: it only reduces spare capacity and
/// leaves the elements unchanged.
#[verifier::external_body]
fn shrink_vec<T>(v: &mut Vec<T>)
    ensures
        *final(v) == *old(v),
{
    v.shrink_to_fit();
}

impl Default for TermIndexU {
    /// An empty dictionary.
    fn default() -> (d: TermIndexU)
        ensures
            d.wf(),
            d.n_slots() == 0,
            d.free_seq() == Seq::<int>::empty(),
            forall|i: int| !d.is_live(i),
    {
        TermIndexU { slots: Vec::new(), next_free: 0, free_list: Ghost(Seq::empty()) }
    }
}

} // verus!
