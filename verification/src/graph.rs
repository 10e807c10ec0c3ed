//! The indexed triple store: a set of three-position handle tuples over
//! the term dictionary, with the same optimistic insert/rollback
//! protocol as the quad store, and the triple side of the streaming
//! protocol.

use vstd::prelude::*;
use crate::stream::{StreamError, StreamResult};
use crate::term::{Term, TermV};
use crate::term_index::TermIndexU;

verus! {

/// Largest number of triples the store accepts; keeps every reference
/// count strictly below the `u32` limit.
pub const TRIPLE_CAP: usize = 1431655763;

/// Spec-level image of a triple.
pub struct TripleV {
    pub s: TermV,
    pub p: TermV,
    pub o: TermV,
}

/// An owned triple: subject, predicate and object.
#[derive(Debug)]
pub struct Triple {
    pub s: Term,
    pub p: Term,
    pub o: Term,
}

impl View for Triple {
    type V = TripleV;

    open spec fn view(&self) -> TripleV {
        TripleV { s: self.s@, p: self.p@, o: self.o@ }
    }
}

impl Triple {
    /// The subject position.
    pub fn s(&self) -> (r: &Term)
        ensures
            r@ == self@.s,
    {
        &self.s
    }

    /// The predicate position.
    pub fn p(&self) -> (r: &Term)
        ensures
            r@ == self@.p,
    {
        &self.p
    }

    /// The object position.
    pub fn o(&self) -> (r: &Term)
        ensures
            r@ == self@.o,
    {
        &self.o
    }

    /// An owned copy with the same value.
    pub fn duplicate(&self) -> (r: Triple)
        ensures
            r@ == self@,
    {
        Triple { s: self.s.duplicate(), p: self.p.duplicate(), o: self.o.duplicate() }
    }
}

/// The spec image of a sequence of owned triples.
pub open spec fn triple_views(s: Seq<Triple>) -> Seq<TripleV> {
    Seq::new(s.len(), |i: int| s[i]@)
}

/// The triple value made of three position values.
pub open spec fn triple_value(s: TermV, p: TermV, o: TermV) -> TripleV {
    TripleV { s, p, o }
}

/// A stored triple, each position reduced to its dictionary handle.
#[derive(Clone, Copy, Debug)]
pub struct IndexedTriple {
    pub s: u32,
    pub p: u32,
    pub o: u32,
}

/// How many of the three positions of `it` hold handle `i`.
pub open spec fn occ_in_triple(it: IndexedTriple, i: int) -> nat {
    (if it.s as int == i {
        1nat
    } else {
        0nat
    }) + (if it.p as int == i {
        1nat
    } else {
        0nat
    }) + (if it.o as int == i {
        1nat
    } else {
        0nat
    })
}

/// Total number of (triple, position) occurrences of handle `i` in `ts`.
pub open spec fn occ_in_triples(ts: Seq<IndexedTriple>, i: int) -> nat
    decreases ts.len(),
{
    if ts.len() == 0 {
        0nat
    } else {
        occ_in_triples(ts.drop_last(), i) + occ_in_triple(ts.last(), i)
    }
}

proof fn lemma_tocc_push(ts: Seq<IndexedTriple>, t: IndexedTriple, i: int)
    ensures
        occ_in_triples(ts.push(t), i) == occ_in_triples(ts, i) + occ_in_triple(t, i),
{
    assert(ts.push(t).drop_last() =~= ts);
}

proof fn lemma_tocc_remove(ts: Seq<IndexedTriple>, k: int, i: int)
    requires
        0 <= k < ts.len(),
    ensures
        occ_in_triples(ts, i) == occ_in_triples(ts.remove(k), i) + occ_in_triple(ts[k], i),
    decreases ts.len(),
{
    if k == ts.len() - 1 {
        assert(ts.remove(k) =~= ts.drop_last());
    } else {
        lemma_tocc_remove(ts.drop_last(), k, i);
        assert(ts.remove(k).drop_last() =~= ts.drop_last().remove(k));
        assert(ts.remove(k).last() == ts.last());
    }
}

proof fn lemma_tocc_zero(ts: Seq<IndexedTriple>, i: int)
    requires
        forall|k: int| 0 <= k < ts.len() ==> occ_in_triple(#[trigger] ts[k], i) == 0,
    ensures
        occ_in_triples(ts, i) == 0,
    decreases ts.len(),
{
    if ts.len() > 0 {
        lemma_tocc_zero(ts.drop_last(), i);
        assert(ts.last() == ts[ts.len() - 1]);
    }
}

proof fn lemma_tocc_bound(ts: Seq<IndexedTriple>, i: int)
    ensures
        occ_in_triples(ts, i) <= 3 * ts.len(),
    decreases ts.len(),
{
    if ts.len() > 0 {
        lemma_tocc_bound(ts.drop_last(), i);
    }
}

proof fn lemma_tocc_at_least(ts: Seq<IndexedTriple>, k: int, i: int)
    requires
        0 <= k < ts.len(),
    ensures
        occ_in_triples(ts, i) >= occ_in_triple(ts[k], i),
    decreases ts.len(),
{
    if k == ts.len() - 1 {
        assert(ts.last() == ts[k]);
    } else {
        lemma_tocc_at_least(ts.drop_last(), k, i);
    }
}

proof fn lemma_tocc_witness(ts: Seq<IndexedTriple>, i: int)
    requires
        occ_in_triples(ts, i) >= 1,
    ensures
        exists|k: int| 0 <= k < ts.len() && occ_in_triple(#[trigger] ts[k], i) >= 1,
    decreases ts.len(),
{
    if ts.len() > 0 {
        if occ_in_triple(ts.last(), i) >= 1 {
            assert(ts[ts.len() - 1] == ts.last());
            assert(occ_in_triple(ts[ts.len() - 1], i) >= 1);
        } else {
            lemma_tocc_witness(ts.drop_last(), i);
            let k = choose|k: int|
                0 <= k < ts.drop_last().len() && occ_in_triple(#[trigger] ts.drop_last()[k], i)
                    >= 1;
            assert(occ_in_triple(ts[k], i) >= 1);
        }
    }
}

/// Whether term `x` stands in some position of the triple `t`.
pub open spec fn appears_in_triple(t: TripleV, x: TermV) -> bool {
    t.s == x || t.p == x || t.o == x
}

/// Structural equality of stored triples.
fn eq_indexed_triple(a: &IndexedTriple, b: &IndexedTriple) -> (r: bool)
    ensures
        r == (*a == *b),
{
    a.s == b.s && a.p == b.p && a.o == b.o
}

/// An in-memory triple store with set semantics, storing its terms in a
/// [`TermIndexU`] and its triples as handle tuples.
pub struct HashGraph {
    terms: TermIndexU,
    triples: Vec<IndexedTriple>,
}

impl View for HashGraph {
    type V = Seq<TripleV>;

    /// The stored triples, handles resolved back to term values, in
    /// container order.
    closed spec fn view(&self) -> Seq<TripleV> {
        Seq::new(self.triples@.len(), |k: int| self.resolve(self.triples@[k]))
    }
}

impl HashGraph {
    /// The term value tuple a stored triple stands for.
    closed spec fn resolve(self, it: IndexedTriple) -> TripleV {
        TripleV {
            s: self.terms.term_at(it.s as int),
            p: self.terms.term_at(it.p as int),
            o: self.terms.term_at(it.o as int),
        }
    }

    /// All three positions of `it` are live dictionary handles.
    closed spec fn it_live(self, it: IndexedTriple) -> bool {
        &&& self.terms.is_live(it.s as int)
        &&& self.terms.is_live(it.p as int)
        &&& self.terms.is_live(it.o as int)
    }

    /// Number of dictionary slots backing this store.
    pub closed spec fn term_slots(self) -> nat {
        self.terms.n_slots()
    }

    /// True when handle `i` is live in the backing dictionary.
    pub closed spec fn index_live(self, i: int) -> bool {
        self.terms.is_live(i)
    }

    /// The term behind live handle `i`.
    pub closed spec fn index_term(self, i: int) -> TermV {
        self.terms.term_at(i)
    }

    /// The reference count of live handle `i`.
    pub closed spec fn index_rc(self, i: int) -> nat {
        self.terms.rc_at(i)
    }

    /// True when some live handle holds the term `t`.
    pub open spec fn has_live_term(self, t: TermV) -> bool {
        exists|i: int| self.index_live(i) && #[trigger] self.index_term(i) == t
    }

    /// Number of (triple, position) occurrences of handle `i`.
    pub closed spec fn occurrences(self, i: int) -> nat {
        occ_in_triples(self.triples@, i)
    }

    /// The store invariant, mirroring the quad store's: a well-formed
    /// dictionary, live positions, no duplicate tuples, and conservative
    /// reference counting.
    pub closed spec fn inv(self) -> bool {
        &&& self.terms.wf()
        &&& forall|k: int|
            0 <= k < self.triples@.len() ==> self.it_live(#[trigger] self.triples@[k])
        &&& self.triples@.no_duplicates()
        &&& forall|i: int|
            self.terms.is_live(i) ==> self.terms.rc_at(i) == occ_in_triples(self.triples@, i)
    }

    /// Reference counting is conservative: every live handle is
    /// referenced exactly as often as its count says.
    pub proof fn lemma_refcount_conservation(&self)
        requires
            self.inv(),
        ensures
            forall|i: int| self.index_live(i) ==> self.index_rc(i) == self.occurrences(i),
    {
    }

    /// Distinct live handles hold distinct terms: interning is a
    /// bijection between live handles and the distinct terms in use.
    pub proof fn lemma_index_injective(&self)
        requires
            self.inv(),
        ensures
            forall|i: int, j: int|
                self.index_live(i) && self.index_live(j) && i != j ==> #[trigger] self.index_term(
                    i,
                ) != #[trigger] self.index_term(j),
    {
        self.terms.lemma_wf_facts();
    }

    /// Every live handle's term stands in some position of some stored
    /// triple: the dictionary's population never outgrows the content.
    #[verifier::rlimit(100)]
    pub proof fn lemma_live_terms_occur(&self)
        requires
            self.inv(),
        ensures
            forall|i: int|
                self.index_live(i) ==> exists|k: int|
                    0 <= k < self@.len() && appears_in_triple(
                        #[trigger] self@[k],
                        self.index_term(i),
                    ),
    {
        self.terms.lemma_wf_facts();
        assert forall|i: int| self.index_live(i) implies exists|k: int|
            0 <= k < self@.len() && appears_in_triple(
                #[trigger] self@[k],
                self.index_term(i),
            ) by {
            assert(self.terms.rc_at(i) >= 1);
            assert(occ_in_triples(self.triples@, i) >= 1);
            lemma_tocc_witness(self.triples@, i);
            let k = choose|k: int|
                0 <= k < self.triples@.len() && occ_in_triple(
                    #[trigger] self.triples@[k],
                    i,
                ) >= 1;
            assert(appears_in_triple(self@[k], self.index_term(i)));
        }
    }

    /// Every term standing in a stored triple is held by a live handle:
    /// the content never outgrows the dictionary's population.
    #[verifier::rlimit(100)]
    pub proof fn lemma_content_terms_live(&self)
        requires
            self.inv(),
        ensures
            forall|k: int| #![trigger self@[k]]
                0 <= k < self@.len() ==> self.has_live_term(self@[k].s) && self.has_live_term(
                    self@[k].p,
                ) && self.has_live_term(self@[k].o),
    {
        assert forall|k: int| #![trigger self@[k]]
            0 <= k < self@.len() implies self.has_live_term(self@[k].s) && self.has_live_term(
            self@[k].p,
        ) && self.has_live_term(self@[k].o) by {
            assert(self.it_live(self.triples@[k]));
            let it = self.triples@[k];
            assert(self.index_live(it.s as int) && self.index_term(it.s as int) == self@[k].s);
            assert(self.index_live(it.p as int) && self.index_term(it.p as int) == self@[k].p);
            assert(self.index_live(it.o as int) && self.index_term(it.o as int) == self@[k].o);
        }
    }

    /// Two distinct stored triples resolve to distinct value tuples.
    proof fn lemma_resolve_injective(self, a: IndexedTriple, b: IndexedTriple)
        requires
            self.terms.wf(),
            self.it_live(a),
            self.it_live(b),
            self.resolve(a) == self.resolve(b),
        ensures
            a == b,
    {
        self.terms.lemma_wf_facts();
        assert(a.s == b.s) by {
            if a.s != b.s {
                assert(self.terms.term_at(a.s as int) != self.terms.term_at(b.s as int));
            }
        }
        assert(a.p == b.p) by {
            if a.p != b.p {
                assert(self.terms.term_at(a.p as int) != self.terms.term_at(b.p as int));
            }
        }
        assert(a.o == b.o) by {
            if a.o != b.o {
                assert(self.terms.term_at(a.o as int) != self.terms.term_at(b.o as int));
            }
        }
    }

    /// A value tuple is in the view exactly when its handle tuple is
    /// stored.
    proof fn lemma_contains_iff(self, it: IndexedTriple)
        requires
            self.inv(),
            self.it_live(it),
        ensures
            self@.contains(self.resolve(it)) <==> self.triples@.contains(it),
    {
        if self.triples@.contains(it) {
            let k = choose|k: int| 0 <= k < self.triples@.len() && self.triples@[k] == it;
            assert(self@[k] == self.resolve(it));
        }
        if self@.contains(self.resolve(it)) {
            let k = choose|k: int| 0 <= k < self@.len() && self@[k] == self.resolve(it);
            self.lemma_resolve_injective(self.triples@[k], it);
            assert(self.triples@[k] == it);
        }
    }

    /// The view holds no triple twice.
    pub proof fn lemma_view_no_duplicates(&self)
        requires
            self.inv(),
        ensures
            self@.no_duplicates(),
    {
        assert forall|a: int, b: int| 0 <= a < b < self@.len() implies self@[a] != self@[b] by {
            if self@[a] == self@[b] {
                self.lemma_resolve_injective(self.triples@[a], self.triples@[b]);
            }
        }
    }

    /// An empty triple store.
    pub fn new() -> (g: HashGraph)
        ensures
            g.inv(),
            g@ == Seq::<TripleV>::empty(),
            g.term_slots() == 0,
            forall|i: int| !g.index_live(i),
            forall|i: int| g.occurrences(i) == 0,
    {
        let g = HashGraph { terms: TermIndexU::new(), triples: Vec::new() };
        proof {
            assert(g@ =~= Seq::<TripleV>::empty());
        }
        g
    }

    /// An empty triple store with room reserved for about `capacity`
    /// triples.
    pub fn with_capacity(capacity: usize) -> (g: HashGraph)
        ensures
            g.inv(),
            g@ == Seq::<TripleV>::empty(),
            g.term_slots() == 0,
            forall|i: int| !g.index_live(i),
            forall|i: int| g.occurrences(i) == 0,
    {
        let g = HashGraph { terms: TermIndexU::new(), triples: Vec::with_capacity(capacity) };
        proof {
            assert(g@ =~= Seq::<TripleV>::empty());
        }
        g
    }

    /// Number of stored triples.
    pub fn len(&self) -> (r: usize)
        ensures
            r == self@.len(),
    {
        self.triples.len()
    }

    /// True when the store holds no triple.
    pub fn is_empty(&self) -> (r: bool)
        ensures
            r == (self@.len() == 0),
    {
        self.triples.is_empty()
    }

    /// Releases spare capacity; the content is unchanged.
    pub fn shrink_to_fit(&mut self)
        ensures
            *final(self) == *old(self),
    {
        self.terms.shrink_to_fit();
    }

    /// The handle of an already-interned term, read-only.
    pub fn get_index(&self, t: &Term) -> (r: Option<u32>)
        requires
            self.inv(),
        ensures
            match r {
                Some(i) => self.index_live(i as int) && self.index_term(i as int) == t@,
                None => forall|j: int|
                    self.index_live(j) ==> self.index_term(j) != t@,
            },
    {
        self.terms.get_index(t)
    }

    /// The term behind a live handle; `None` for a free or out-of-range
    /// handle. The reference borrows from the dictionary and is valid
    /// only until the next mutating call.
    pub fn get_term(&self, i: u32) -> (r: Option<&Term>)
        ensures
            match r {
                Some(t) => self.index_live(i as int) && t@ == self.index_term(i as int),
                None => !self.index_live(i as int),
            },
    {
        self.terms.get_term(i)
    }

    /// Inserts the given triple, interning every position optimistically
    /// and rolling the three increments back when the container reports
    /// the triple was already present. On change, returns the three
    /// handles.
    #[verifier::rlimit(100)]
    pub fn insert_indexed(&mut self, s: &Term, p: &Term, o: &Term) -> (r: Option<[u32; 3]>)
        requires
            old(self).inv(),
            old(self)@.len() < TRIPLE_CAP as nat,
            old(self).term_slots() + 3 <= u32::MAX as nat,
        ensures
            final(self).inv(),
            r is Some <==> !old(self)@.contains(triple_value(s@, p@, o@)),
            r is Some ==> final(self)@ == old(self)@.push(triple_value(s@, p@, o@)) && {
                let ix = r->0;
                &&& final(self).index_live(ix[0] as int) && final(self).index_term(ix[0] as int)
                    == s@
                &&& final(self).index_live(ix[1] as int) && final(self).index_term(ix[1] as int)
                    == p@
                &&& final(self).index_live(ix[2] as int) && final(self).index_term(ix[2] as int)
                    == o@
            },
            r is Some ==> forall|j: int|
                #[trigger] old(self).index_live(j) ==> final(self).index_live(j)
                    && final(self).index_term(j) == old(self).index_term(j),
            r is Some ==> forall|j: int|
                #[trigger] final(self).index_live(j) ==> old(self).index_live(j)
                    || final(self).index_term(j) == s@ || final(self).index_term(j) == p@
                    || final(self).index_term(j) == o@,
            r is Some ==> forall|j: int| #[trigger]
                final(self).occurrences(j) == old(self).occurrences(j) + occ_in_triple(
                    (IndexedTriple { s: r->0[0], p: r->0[1], o: r->0[2] }),
                    j,
                ),
            r is None ==> final(self)@ == old(self)@,
            r is None ==> forall|j: int|
                #[trigger] final(self).index_live(j) == old(self).index_live(j) && (old(
                    self,
                ).index_live(j) ==> final(self).index_term(j) == old(self).index_term(j)
                    && final(self).index_rc(j) == old(self).index_rc(j)),
            final(self).term_slots() <= old(self).term_slots() + 3,
    {
        let ghost ts = self.triples@;
        let ghost d0 = self.terms;
        let ghost tv = triple_value(s@, p@, o@);
        proof {
            self.terms.lemma_wf_facts();
            assert forall|j: int| d0.is_live(j) implies d0.rc_at(j) + 3 <= u32::MAX as nat by {
                lemma_tocc_bound(ts, j);
            }
        }
        let si = self.terms.make_index(s);
        let ghost d1 = self.terms;
        proof {
            d1.lemma_wf_facts();
            assert forall|j: int| d1.is_live(j) implies d1.rc_at(j) == occ_in_triples(ts, j) + (
            if si as int == j {
                1nat
            } else {
                0nat
            }) by {
                if si as int == j {
                    if !d0.has_term(s@) {
                        assert forall|k: int|
                            0 <= k < ts.len() implies occ_in_triple(#[trigger] ts[k], j) == 0 by {
                            assert(old(self).it_live(ts[k]));
                        }
                        lemma_tocc_zero(ts, j);
                    }
                } else {
                    assert(d0.is_live(j));
                }
            }
            assert(d1.is_live(si as int) && d1.term_at(si as int) == s@);
            assert forall|j: int| d0.is_live(j) implies d1.is_live(j) && d1.term_at(j) == d0.term_at(
                j,
            ) by {
                if j == si as int {
                    assert(d0.has_term(s@) || !d0.is_live(j));
                }
            }
        }
        let pi = self.terms.make_index(p);
        let ghost d2 = self.terms;
        proof {
            d2.lemma_wf_facts();
            assert forall|j: int| d2.is_live(j) implies d2.rc_at(j) == occ_in_triples(ts, j) + (
            if si as int == j {
                1nat
            } else {
                0nat
            }) + (if pi as int == j {
                1nat
            } else {
                0nat
            }) by {
                if pi as int == j {
                    if !d1.has_term(p@) {
                        assert(!d1.is_live(j));
                        assert(!d0.is_live(j));
                        assert(si as int != j);
                        assert forall|k: int|
                            0 <= k < ts.len() implies occ_in_triple(#[trigger] ts[k], j) == 0 by {
                            assert(old(self).it_live(ts[k]));
                        }
                        lemma_tocc_zero(ts, j);
                    } else {
                        assert(d1.is_live(j));
                    }
                } else {
                    assert(d1.is_live(j));
                }
            }
            assert(d2.is_live(si as int) && d2.term_at(si as int) == s@);
            assert(d2.is_live(pi as int) && d2.term_at(pi as int) == p@);
            assert forall|j: int| d0.is_live(j) implies d2.is_live(j) && d2.term_at(j) == d0.term_at(
                j,
            ) by {
                if j == si as int {
                    assert(d0.has_term(s@) || !d0.is_live(j));
                }
                assert(d1.is_live(j) && d1.term_at(j) == d0.term_at(j));
                if j == pi as int {
                    assert(d1.has_term(p@) || !d1.is_live(j));
                }
            }
        }
        let oi = self.terms.make_index(o);
        let it = IndexedTriple { s: si, p: pi, o: oi };
        let ghost d3 = self.terms;
        proof {
            d3.lemma_wf_facts();
            assert forall|j: int| d3.is_live(j) implies d3.rc_at(j) == occ_in_triples(ts, j)
                + occ_in_triple(it, j) by {
                if oi as int == j {
                    if !d2.has_term(o@) {
                        assert(!d2.is_live(j));
                        assert(!d0.is_live(j));
                        assert(si as int != j && pi as int != j);
                        assert forall|k: int|
                            0 <= k < ts.len() implies occ_in_triple(#[trigger] ts[k], j) == 0 by {
                            assert(old(self).it_live(ts[k]));
                        }
                        lemma_tocc_zero(ts, j);
                    } else {
                        assert(d2.is_live(j));
                    }
                } else {
                    assert(d2.is_live(j));
                }
            }
            assert(self.it_live(it));
            assert(self.resolve(it) == tv);
            assert forall|j: int| d0.is_live(j) implies d3.is_live(j) && d3.term_at(j) == d0.term_at(
                j,
            ) by {
                if j == si as int {
                    assert(d0.has_term(s@) || !d0.is_live(j));
                }
                assert(d1.is_live(j) && d1.term_at(j) == d0.term_at(j));
                if j == pi as int {
                    assert(d1.has_term(p@) || !d1.is_live(j));
                }
                assert(d2.is_live(j) && d2.term_at(j) == d1.term_at(j));
                if j == oi as int {
                    assert(d2.has_term(o@) || !d2.is_live(j));
                }
            }
            assert forall|k: int| 0 <= k < ts.len() implies self.it_live(#[trigger] ts[k])
                && self.resolve(ts[k]) == old(self).resolve(ts[k]) by {
                assert(old(self).it_live(ts[k]));
            }
            assert(self@ =~= old(self)@);
            assert(old(self)@.contains(tv) <==> ts.contains(it)) by {
                if d0.has_term(s@) && d1.has_term(p@) && d2.has_term(o@) {
                    assert(d0.is_live(si as int) && d0.term_at(si as int) == s@);
                    assert(d0.is_live(pi as int) && d0.term_at(pi as int) == p@) by {
                        assert(d1.is_live(pi as int) && d1.term_at(pi as int) == p@);
                    }
                    assert(d0.is_live(oi as int) && d0.term_at(oi as int) == o@) by {
                        assert(d2.is_live(oi as int) && d2.term_at(oi as int) == o@);
                        assert(d1.is_live(oi as int) && d1.term_at(oi as int) == o@);
                    }
                    assert(old(self).it_live(it));
                    assert(old(self).resolve(it) == tv);
                    old(self).lemma_contains_iff(it);
                } else {
                    let fidx: int = if !d0.has_term(s@) {
                        si as int
                    } else if !d1.has_term(p@) {
                        pi as int
                    } else {
                        oi as int
                    };
                    assert(!d0.is_live(fidx)) by {
                        if !d0.has_term(s@) {
                        } else if !d1.has_term(p@) {
                            assert(!d1.is_live(pi as int));
                            assert(d1.is_live(si as int));
                        } else {
                            assert(!d2.is_live(oi as int));
                            assert(d2.is_live(si as int) && d2.is_live(pi as int));
                            assert(!d1.is_live(oi as int));
                        }
                    }
                    assert(occ_in_triple(it, fidx) >= 1);
                    assert forall|k: int|
                        0 <= k < ts.len() implies occ_in_triple(#[trigger] ts[k], fidx) == 0 by {
                        assert(old(self).it_live(ts[k]));
                    }
                    assert(!ts.contains(it)) by {
                        if ts.contains(it) {
                            let k0 = choose|k: int| 0 <= k < ts.len() && ts[k] == it;
                            lemma_tocc_at_least(ts, k0, fidx);
                            lemma_tocc_zero(ts, fidx);
                        }
                    }
                    assert forall|k: int| 0 <= k < ts.len() implies old(self)@[k] != tv by {
                        assert(old(self).it_live(ts[k]));
                        if !d0.has_term(s@) {
                            assert(!(d0.is_live(ts[k].s as int) && d0.term_at(ts[k].s as int)
                                == s@));
                        } else if !d1.has_term(p@) {
                            assert(!d0.has_term(p@)) by {
                                if d0.has_term(p@) {
                                    let j = choose|j: int|
                                        d0.is_live(j) && d0.term_at(j) == p@;
                                    assert(d1.is_live(j) && d1.term_at(j) == p@);
                                }
                            }
                            assert(!(d0.is_live(ts[k].p as int) && d0.term_at(ts[k].p as int)
                                == p@));
                        } else {
                            assert(!d0.has_term(o@)) by {
                                if d0.has_term(o@) {
                                    let j = choose|j: int|
                                        d0.is_live(j) && d0.term_at(j) == o@;
                                    assert(d1.is_live(j) && d1.term_at(j) == o@);
                                    assert(d2.is_live(j) && d2.term_at(j) == o@);
                                }
                            }
                            assert(!(d0.is_live(ts[k].o as int) && d0.term_at(ts[k].o as int)
                                == o@));
                        }
                    }
                    assert(!old(self)@.contains(tv)) by {
                        if old(self)@.contains(tv) {
                            let k = choose|k: int|
                                0 <= k < old(self)@.len() && old(self)@[k] == tv;
                        }
                    }
                }
            }
        }
        match self.find_triple(&it) {
            None => {
                self.triples.push(it);
                proof {
                    assert forall|j: int| self.terms.is_live(j) implies self.terms.rc_at(j)
                        == occ_in_triples(self.triples@, j) by {
                        lemma_tocc_push(ts, it, j);
                    }
                    assert forall|k: int|
                        0 <= k < self.triples@.len() implies self.it_live(
                        #[trigger] self.triples@[k],
                    ) by {
                        if k < ts.len() {
                            assert(old(self).it_live(ts[k]));
                        }
                    }
                    assert(self.triples@.no_duplicates());
                    assert(self@ =~= old(self)@.push(tv)) by {
                        assert forall|k: int| 0 <= k < ts.len() implies self@[k] == old(
                            self,
                        )@[k] by {
                            assert(old(self).it_live(ts[k]));
                        }
                        assert(self@[ts.len() as int] == tv);
                    }
                    assert forall|j: int| #[trigger]
                        occ_in_triples(self.triples@, j) == occ_in_triples(ts, j)
                            + occ_in_triple(it, j) by {
                        lemma_tocc_push(ts, it, j);
                    }
                    assert forall|j: int|
                        #[trigger] self.terms.is_live(j) && !d0.is_live(j) implies self.terms.term_at(
                        j,
                    ) == s@ || self.terms.term_at(j) == p@ || self.terms.term_at(j) == o@ by {
                        if j != oi as int {
                            assert(d2.is_live(j));
                            if j != pi as int {
                                assert(d1.is_live(j));
                                assert(j == si as int);
                            }
                        }
                    }
                }
                Some([si, pi, oi])
            },
            Some(_) => {
                proof {
                    assert(old(self)@.contains(tv));
                    assert(self.triples@.contains(it));
                    let k0 = choose|k: int| 0 <= k < ts.len() && ts[k] == it;
                    assert(ts[k0] == it);
                    assert forall|j: int| d3.is_live(j) implies occ_in_triples(ts, j) >= 1 by {
                        assert(d3.rc_at(j) == occ_in_triples(ts, j) + occ_in_triple(it, j));
                        if occ_in_triple(it, j) >= 1 {
                            lemma_tocc_at_least(ts, k0, j);
                        }
                    }
                }
                self.release_triple(it);
                proof {
                    assert(self@ =~= old(self)@) by {
                        assert forall|k: int| 0 <= k < ts.len() implies self@[k] == old(
                            self,
                        )@[k] by {
                            assert(old(self).it_live(ts[k]));
                            assert(d3.is_live(ts[k].s as int) && self.terms.is_live(
                                ts[k].s as int,
                            ));
                            assert(d3.is_live(ts[k].p as int) && self.terms.is_live(
                                ts[k].p as int,
                            ));
                            assert(d3.is_live(ts[k].o as int) && self.terms.is_live(
                                ts[k].o as int,
                            ));
                        }
                    }
                    let k0 = choose|k: int| 0 <= k < ts.len() && ts[k] == it;
                    assert(ts[k0] == it);
                    assert(old(self).it_live(ts[k0]));
                    assert forall|j: int| d3.is_live(j) implies d0.is_live(j) && d3.term_at(j)
                        == d0.term_at(j) by {
                        if j != oi as int {
                            assert(d2.is_live(j));
                            if j != pi as int {
                                assert(d1.is_live(j));
                            }
                        }
                        assert(d0.is_live(j));
                        assert(d1.is_live(j) && d1.term_at(j) == d0.term_at(j));
                        assert(d2.is_live(j) && d2.term_at(j) == d1.term_at(j));
                    }
                    assert forall|j: int|
                        #[trigger] self.terms.is_live(j) == d0.is_live(j) && (d0.is_live(j)
                            ==> self.terms.term_at(j) == d0.term_at(j) && self.terms.rc_at(j)
                            == d0.rc_at(j)) by {
                        if d0.is_live(j) {
                            assert(d3.is_live(j));
                            assert(occ_in_triples(ts, j) >= 1);
                            assert(self.terms.is_live(j));
                            assert(self.terms.rc_at(j) == occ_in_triples(ts, j));
                        }
                        if self.terms.is_live(j) {
                            assert(d3.is_live(j));
                        }
                    }
                }
                None
            },
        }
    }

    /// Removes the given triple, resolving each position through a
    /// read-only dictionary lookup first; on success every position's
    /// reference count is released and the three handles are returned.
    #[verifier::rlimit(100)]
    pub fn remove_indexed(&mut self, s: &Term, p: &Term, o: &Term) -> (r: Option<[u32; 3]>)
        requires
            old(self).inv(),
        ensures
            final(self).inv(),
            r is Some <==> old(self)@.contains(triple_value(s@, p@, o@)),
            r is Some ==> final(self)@ == old(self)@.filter(
                |x: TripleV| x != triple_value(s@, p@, o@),
            ) && final(self)@.len() == old(self)@.len() - 1,
            r is Some ==> {
                let ix = r->0;
                &&& old(self).index_live(ix[0] as int) && old(self).index_term(ix[0] as int)
                    == s@
                &&& old(self).index_live(ix[1] as int) && old(self).index_term(ix[1] as int)
                    == p@
                &&& old(self).index_live(ix[2] as int) && old(self).index_term(ix[2] as int)
                    == o@
            },
            r is Some ==> forall|j: int|
                #[trigger] final(self).index_live(j) ==> old(self).index_live(j)
                    && final(self).index_term(j) == old(self).index_term(j),
            r is Some ==> forall|j: int| #[trigger]
                old(self).occurrences(j) == final(self).occurrences(j) + occ_in_triple(
                    (IndexedTriple { s: r->0[0], p: r->0[1], o: r->0[2] }),
                    j,
                ),
            r is None ==> *final(self) == *old(self),
            final(self).term_slots() == old(self).term_slots(),
    {
        let ghost tv = triple_value(s@, p@, o@);
        proof {
            self.terms.lemma_wf_facts();
        }
        let si: u32;
        match self.terms.get_index(s) {
            Some(i) => {
                si = i;
            },
            None => {
                proof {
                    assert forall|k: int| 0 <= k < old(self)@.len() implies old(self)@[k]
                        != tv by {
                        assert(self.it_live(self.triples@[k]));
                    }
                }
                return None;
            },
        }
        let pi: u32;
        match self.terms.get_index(p) {
            Some(i) => {
                pi = i;
            },
            None => {
                proof {
                    assert forall|k: int| 0 <= k < old(self)@.len() implies old(self)@[k]
                        != tv by {
                        assert(self.it_live(self.triples@[k]));
                    }
                }
                return None;
            },
        }
        let oi: u32;
        match self.terms.get_index(o) {
            Some(i) => {
                oi = i;
            },
            None => {
                proof {
                    assert forall|k: int| 0 <= k < old(self)@.len() implies old(self)@[k]
                        != tv by {
                        assert(self.it_live(self.triples@[k]));
                    }
                }
                return None;
            },
        }
        let it = IndexedTriple { s: si, p: pi, o: oi };
        proof {
            assert(self.it_live(it));
            assert(self.resolve(it) == tv);
            self.lemma_contains_iff(it);
            self.lemma_view_no_duplicates();
        }
        match self.find_triple(&it) {
            None => {
                None
            },
            Some(k) => {
                let ghost ts = self.triples@;
                proof {
                    assert(ts[k as int] == it);
                    assert(old(self)@[k as int] == tv);
                    assert(old(self)@.contains(tv));
                }
                self.triples.remove(k);
                proof {
                    assert(self.triples@ == ts.remove(k as int));
                    assert forall|j: int| self.terms.is_live(j) implies self.terms.rc_at(j)
                        == occ_in_triples(self.triples@, j) + occ_in_triple(it, j) by {
                        lemma_tocc_remove(ts, k as int, j);
                    }
                    assert forall|j: int| #[trigger]
                        occ_in_triples(ts, j) == occ_in_triples(self.triples@, j)
                            + occ_in_triple(it, j) by {
                        lemma_tocc_remove(ts, k as int, j);
                    }
                    assert forall|k2: int|
                        0 <= k2 < self.triples@.len() implies self.it_live(
                        #[trigger] self.triples@[k2],
                    ) by {
                        let k0 = if k2 < k as int {
                            k2
                        } else {
                            k2 + 1
                        };
                        assert(self.triples@[k2] == ts[k0]);
                        assert(old(self).it_live(ts[k0]));
                    }
                    crate::seq_lemmas::lemma_remove_preserves_no_duplicates(ts, k as int);
                }
                self.release_triple(it);
                proof {
                    assert(self@ =~= old(self)@.remove(k as int)) by {
                        assert forall|k2: int| 0 <= k2 < self@.len() implies self@[k2] == old(
                            self,
                        )@.remove(k as int)[k2] by {
                            let k0 = if k2 < k as int {
                                k2
                            } else {
                                k2 + 1
                            };
                            assert(self.triples@[k2] == ts[k0]);
                            assert(old(self).it_live(ts[k0]));
                            lemma_tocc_at_least(ts.remove(k as int), k2, ts[k0].s as int);
                            lemma_tocc_at_least(ts.remove(k as int), k2, ts[k0].p as int);
                            lemma_tocc_at_least(ts.remove(k as int), k2, ts[k0].o as int);
                        }
                    }
                    crate::seq_lemmas::lemma_remove_is_filter(old(self)@, k as int);
                    crate::seq_lemmas::lemma_filter_congruent(
                        old(self)@,
                        |x: TripleV| x != old(self)@[k as int],
                        |x: TripleV| x != tv,
                    );
                }
                Some([si, pi, oi])
            },
        }
    }

    /// Releases one reference per position of a triple that has just
    /// left the container (or whose interning is being rolled back); a
    /// count reaching zero frees its slot.
    fn release_triple(&mut self, it: IndexedTriple)
        requires
            old(self).terms.wf(),
            forall|j: int|
                old(self).terms.is_live(j) ==> old(self).terms.rc_at(j) == occ_in_triples(
                    old(self).triples@,
                    j,
                ) + occ_in_triple(it, j),
            forall|k: int|
                0 <= k < old(self).triples@.len() ==> old(self).it_live(
                    #[trigger] old(self).triples@[k],
                ),
            old(self).triples@.no_duplicates(),
            old(self).it_live(it),
        ensures
            final(self).triples@ == old(self).triples@,
            final(self).inv(),
            final(self).terms.n_slots() == old(self).terms.n_slots(),
            forall|j: int|
                final(self).terms.is_live(j) ==> old(self).terms.is_live(j)
                    && final(self).terms.term_at(j) == old(self).terms.term_at(j),
            forall|j: int|
                old(self).terms.is_live(j) && occ_in_triples(old(self).triples@, j) >= 1
                    ==> final(self).terms.is_live(j),
    {
        let ghost ts2 = old(self).triples@;
        let ghost d0r = old(self).terms;
        proof {
            self.terms.lemma_wf_facts();
        }
        self.terms.dec_ref(it.s);
        let ghost e1 = self.terms;
        proof {
            assert forall|j: int| d0r.is_live(j) implies ({
                let rem = occ_in_triples(ts2, j) + occ_in_triple(it, j) - (if it.s as int == j {
                    1int
                } else {
                    0int
                });
                &&& (rem >= 1 ==> e1.is_live(j) && e1.rc_at(j) as int == rem && e1.term_at(j)
                    == d0r.term_at(j))
                &&& (rem == 0 ==> !e1.is_live(j))
            }) by {
                if j != it.s as int {
                    assert(e1.is_live(j) == d0r.is_live(j));
                }
            }
            assert(e1.is_live(it.p as int));
        }
        self.terms.dec_ref(it.p);
        let ghost e2 = self.terms;
        proof {
            assert forall|j: int| d0r.is_live(j) implies ({
                let rem = occ_in_triples(ts2, j) + occ_in_triple(it, j) - (if it.s as int == j {
                    1int
                } else {
                    0int
                }) - (if it.p as int == j {
                    1int
                } else {
                    0int
                });
                &&& (rem >= 1 ==> e2.is_live(j) && e2.rc_at(j) as int == rem && e2.term_at(j)
                    == d0r.term_at(j))
                &&& (rem == 0 ==> !e2.is_live(j))
            }) by {
                if j != it.p as int {
                    assert(e2.is_live(j) == e1.is_live(j));
                }
            }
            assert(e2.is_live(it.o as int));
        }
        self.terms.dec_ref(it.o);
        let ghost e3 = self.terms;
        proof {
            assert forall|j: int| d0r.is_live(j) implies ({
                let rem = occ_in_triples(ts2, j);
                &&& (rem >= 1 ==> e3.is_live(j) && e3.rc_at(j) as int == rem && e3.term_at(j)
                    == d0r.term_at(j))
                &&& (rem == 0 ==> !e3.is_live(j))
            }) by {
                if j != it.o as int {
                    assert(e3.is_live(j) == e2.is_live(j));
                }
            }
            assert forall|j: int| e3.is_live(j) implies d0r.is_live(j) by {}
            assert forall|j: int| self.terms.is_live(j) implies self.terms.rc_at(j)
                == occ_in_triples(ts2, j) by {}
            assert forall|k: int| 0 <= k < ts2.len() implies self.it_live(#[trigger] ts2[k]) by {
                assert(old(self).it_live(ts2[k]));
                lemma_tocc_at_least(ts2, k, ts2[k].s as int);
                lemma_tocc_at_least(ts2, k, ts2[k].p as int);
                lemma_tocc_at_least(ts2, k, ts2[k].o as int);
            }
        }
    }

    /// An owned copy of the triple a stored handle tuple stands for.
    fn resolve_exec(&self, it: &IndexedTriple) -> (r: Triple)
        requires
            self.inv(),
            self.it_live(*it),
        ensures
            r@ == self.resolve(*it),
    {
        let s = match self.terms.get_term(it.s) {
            Some(t) => t.duplicate(),
            None => unreached(),
        };
        let p = match self.terms.get_term(it.p) {
            Some(t) => t.duplicate(),
            None => unreached(),
        };
        let o = match self.terms.get_term(it.o) {
            Some(t) => t.duplicate(),
            None => unreached(),
        };
        Triple { s, p, o }
    }

    /// All triples of the store, in container order.
    #[verifier::loop_isolation(false)]
    pub fn triples(&self) -> (r: Vec<Triple>)
        requires
            self.inv(),
        ensures
            triple_views(r@) == self@,
    {
        let mut out: Vec<Triple> = Vec::new();
        let n = self.triples.len();
        let mut k: usize = 0;
        proof {
            assert(triple_views(out@) =~= self@.take(0));
        }
        while k < n
            invariant
                triple_views(out@) == self@.take(k as int),
                0 <= k <= n,
            decreases n - k,
        {
            proof {
                assert(self.it_live(self.triples@[k as int]));
            }
            let t = self.resolve_exec(&self.triples[k]);
            let ghost old_out = out@;
            out.push(t);
            proof {
                assert(triple_views(out@) =~= triple_views(old_out).push(self@[k as int]));
                assert(self@.take(k + 1) =~= self@.take(k as int).push(self@[k as int]));
            }
            k = k + 1;
        }
        proof {
            assert(self@.take(n as int) =~= self@);
        }
        out
    }

    /// Inserts every triple of the source, stopping at the first source
    /// condition; returns how many insertions actually changed the
    /// store.
    #[verifier::loop_isolation(false)]
    pub fn insert_all<TS: TripleSource>(&mut self, src: TS) -> (r: StreamResult<
        usize,
        TS::Error,
        crate::dataset::NeverError,
    >)
        requires
            old(self).inv(),
            old(self)@.len() + src.pending().len() <= TRIPLE_CAP as nat,
            old(self).term_slots() + 3 * src.pending().len() + 3 <= u32::MAX as nat,
        ensures
            final(self).inv(),
            final(self)@ == spec_insert_all_triples(old(self)@, src.pending()),
            match r {
                Ok(n) => n == spec_insert_count_triples(old(self)@, src.pending())
                    && !src.will_fail(),
                Err(e) => e is SourceError && src.will_fail(),
            },
    {
        let ghost pending = src.pending();
        let mut src = src;
        let mut coll = TripleCollector::new();
        let res = src.try_for_each_triple(&mut coll);
        proof {
            match res {
                Ok(()) => {
                    assert(coll.accepted() =~= pending);
                },
                Err(StreamError::SourceError(_)) => {
                    assert(coll.accepted() =~= pending);
                },
                Err(StreamError::SinkError(_)) => {
                    assert(false);
                },
            }
            assert(triple_views(coll.items@) == pending);
        }
        let n = coll.items.len();
        let mut c: usize = 0;
        let mut i: usize = 0;
        proof {
            assert(pending.take(0) =~= Seq::<TripleV>::empty());
        }
        while i < n
            invariant
                self.inv(),
                n == coll.items@.len(),
                triple_views(coll.items@) == pending,
                0 <= i <= n,
                c <= i,
                self@ == spec_insert_all_triples(old(self)@, pending.take(i as int)),
                c == spec_insert_count_triples(old(self)@, pending.take(i as int)),
                self.term_slots() <= old(self).term_slots() + 3 * i,
                self@.len() <= old(self)@.len() + i,
            decreases n - i,
        {
            let t = &coll.items[i];
            proof {
                assert(t@ == pending[i as int]);
            }
            let changed = self.insert_indexed(t.s(), t.p(), t.o());
            proof {
                assert(pending.take(i + 1) =~= pending.take(i as int).push(pending[i as int]));
                lemma_insert_all_triples_push(old(self)@, pending.take(i as int), pending[i as int]);
            }
            match changed {
                Some(_) => {
                    c = c + 1;
                },
                None => {},
            }
            i = i + 1;
        }
        proof {
            assert(pending.take(n as int) =~= pending);
        }
        match res {
            Ok(()) => Ok(c),
            Err(StreamError::SourceError(e)) => Err(StreamError::SourceError(e)),
            Err(StreamError::SinkError(_)) => unreached(),
        }
    }

    /// Builds a store from a triple source: an empty store filled
    /// through `insert_all`.
    pub fn from_triple_source<TS: TripleSource>(triples: TS) -> (r: StreamResult<
        HashGraph,
        TS::Error,
        crate::dataset::NeverError,
    >)
        requires
            triples.pending().len() <= TRIPLE_CAP as nat,
        ensures
            match r {
                Ok(g) => {
                    &&& g.inv()
                    &&& g@ == spec_insert_all_triples(Seq::<TripleV>::empty(), triples.pending())
                    &&& !triples.will_fail()
                },
                Err(e) => e is SourceError && triples.will_fail(),
            },
    {
        let (lo, hi) = triples.size_hint_triples();
        let cap = match hi {
            Some(u) => u,
            None => lo,
        };
        let mut g = HashGraph::with_capacity(cap);
        match g.insert_all(triples) {
            Ok(_) => Ok(g),
            Err(StreamError::SourceError(e)) => Err(StreamError::SourceError(e)),
            Err(StreamError::SinkError(_)) => unreached(),
        }
    }

    /// Position of a handle tuple in the container, if stored.
    fn find_triple(&self, it: &IndexedTriple) -> (r: Option<usize>)
        ensures
            match r {
                Some(k) => k < self.triples@.len() && self.triples@[k as int] == *it,
                None => !self.triples@.contains(*it),
            },
    {
        let n = self.triples.len();
        let mut k: usize = 0;
        while k < n
            invariant
                n == self.triples@.len(),
                0 <= k <= n,
                forall|j: int| 0 <= j < k ==> #[trigger] self.triples@[j] != *it,
            decreases n - k,
        {
            if eq_indexed_triple(&self.triples[k], it) {
                return Some(k);
            }
            k = k + 1;
        }
        None
    }
}

impl Default for HashGraph {
    /// An empty triple store.
    fn default() -> (g: HashGraph)
        ensures
            g.inv(),
            g@ == Seq::<TripleV>::empty(),
            g.term_slots() == 0,
            forall|i: int| !g.index_live(i),
            forall|i: int| g.occurrences(i) == 0,
    {
        HashGraph::new()
    }
}

/// One set-semantics insertion on the abstract triple content.
pub open spec fn spec_insert_triple(s: Seq<TripleV>, t: TripleV) -> Seq<TripleV> {
    if s.contains(t) {
        s
    } else {
        s.push(t)
    }
}

/// Folding set-semantics insertions of `ts` into `s`, in order.
pub open spec fn spec_insert_all_triples(s: Seq<TripleV>, ts: Seq<TripleV>) -> Seq<TripleV>
    decreases ts.len(),
{
    if ts.len() == 0 {
        s
    } else {
        spec_insert_all_triples(spec_insert_triple(s, ts[0]), ts.drop_first())
    }
}

/// How many of the insertions of `ts` into `s` change the content.
pub open spec fn spec_insert_count_triples(s: Seq<TripleV>, ts: Seq<TripleV>) -> nat
    decreases ts.len(),
{
    if ts.len() == 0 {
        0nat
    } else {
        (if s.contains(ts[0]) {
            0nat
        } else {
            1nat
        }) + spec_insert_count_triples(spec_insert_triple(s, ts[0]), ts.drop_first())
    }
}

proof fn lemma_insert_all_triples_push(s: Seq<TripleV>, ts: Seq<TripleV>, t: TripleV)
    ensures
        spec_insert_all_triples(s, ts.push(t)) == spec_insert_triple(
            spec_insert_all_triples(s, ts),
            t,
        ),
        spec_insert_count_triples(s, ts.push(t)) == spec_insert_count_triples(s, ts) + (
        if spec_insert_all_triples(s, ts).contains(t) {
            0nat
        } else {
            1nat
        }),
    decreases ts.len(),
{
    reveal_with_fuel(spec_insert_all_triples, 3);
    reveal_with_fuel(spec_insert_count_triples, 3);
    if ts.len() == 0 {
        assert(ts.push(t).drop_first() =~= ts);
        assert(ts.push(t)[0] == t);
    } else {
        lemma_insert_all_triples_push(spec_insert_triple(s, ts[0]), ts.drop_first(), t);
        assert(ts.push(t).drop_first() =~= ts.drop_first().push(t));
        assert(ts.push(t)[0] == ts[0]);
    }
}

/// A consumer of triples, mirroring the quad sink: a sink appends every
/// item it accepts to its `accepted` sequence; a rejected item leaves it
/// unchanged.
pub trait TripleSink: Sized {
    /// The type of errors this sink may raise.
    type Error;

    /// The items accepted so far, in feed order.
    spec fn accepted(&self) -> Seq<TripleV>;

    /// Whether this sink accepts every item in every state.
    spec fn always_accepts() -> bool;

    /// Consumes one item, or rejects it leaving the sink unchanged.
    fn feed(&mut self, t: Triple) -> (r: Result<(), Self::Error>)
        ensures
            match r {
                Ok(()) => final(self).accepted() == old(self).accepted().push(t@),
                Err(_) => *final(self) == *old(self) && !Self::always_accepts(),
            },
    ;
}

/// A producer of triples, mirroring the quad source.
pub trait TripleSource: Sized {
    /// The type of errors this source may raise.
    type Error;

    /// The items this source will still yield, in order.
    spec fn pending(&self) -> Seq<TripleV>;

    /// Whether a source condition follows the pending items.
    spec fn will_fail(&self) -> bool;

    /// An upper bound on the remaining productive calls.
    spec fn fuel(&self) -> nat;

    /// Calls the sink for at least one triple from this source, if any;
    /// returns `Ok(false)` when no more triples exist.
    fn try_for_some_triple<S: TripleSink>(&mut self, f: &mut S) -> (r: StreamResult<
        bool,
        Self::Error,
        S::Error,
    >)
        ensures
            match r {
                Ok(b) => {
                    if b {
                        &&& final(self).fuel() < old(self).fuel()
                        &&& final(self).will_fail() == old(self).will_fail()
                        &&& {
                            ||| (final(self).pending() == old(self).pending() && *final(f)
                                == *old(f))
                            ||| (old(self).pending().len() > 0 && final(self).pending() == old(
                                self,
                            ).pending().drop_first() && final(f).accepted() == old(
                                f,
                            ).accepted().push(old(self).pending()[0]))
                        }
                    } else {
                        &&& old(self).pending().len() == 0
                        &&& !old(self).will_fail()
                        &&& final(self).pending().len() == 0
                        &&& !final(self).will_fail()
                        &&& *final(f) == *old(f)
                    }
                },
                Err(e) => match e {
                    StreamError::SourceError(_) => {
                        &&& old(self).pending().len() == 0
                        &&& old(self).will_fail()
                        &&& *final(f) == *old(f)
                    },
                    StreamError::SinkError(_) => {
                        &&& old(self).pending().len() > 0
                        &&& final(self).pending() == old(self).pending().drop_first()
                        &&& final(self).will_fail() == old(self).will_fail()
                        &&& *final(f) == *old(f)
                        &&& !S::always_accepts()
                    },
                },
            },
    ;

    /// Calls the sink for every triple of this source, stopping at the
    /// first source or sink condition.
    fn try_for_each_triple<S: TripleSink>(&mut self, f: &mut S) -> (r: StreamResult<
        (),
        Self::Error,
        S::Error,
    >)
        ensures
            match r {
                Ok(()) => {
                    &&& final(f).accepted() == old(f).accepted() + old(self).pending()
                    &&& !old(self).will_fail()
                },
                Err(e) => match e {
                    StreamError::SourceError(_) => {
                        &&& final(f).accepted() == old(f).accepted() + old(self).pending()
                        &&& old(self).will_fail()
                    },
                    StreamError::SinkError(_) => {
                        &&& exists|k: int|
                            0 <= k < old(self).pending().len() && final(f).accepted() == old(
                                f,
                            ).accepted() + #[trigger] old(self).pending().take(k)
                                && final(self).pending() == old(self).pending().skip(k + 1)
                        &&& !S::always_accepts()
                    },
                },
            },
    {
        let ghost mut consumed: Seq<TripleV> = Seq::empty();
        proof {
            assert(old(self).pending() =~= consumed + self.pending());
            assert(f.accepted() =~= old(f).accepted() + consumed);
        }
        loop
            invariant
                old(self).pending() == consumed + self.pending(),
                f.accepted() == old(f).accepted() + consumed,
                self.will_fail() == old(self).will_fail(),
            decreases self.fuel(),
        {
            let ghost pend_pre = self.pending();
            let r = self.try_for_some_triple(f);
            match r {
                Ok(true) => {
                    proof {
                        if self.pending() != pend_pre {
                            consumed = consumed.push(pend_pre[0]);
                            assert(old(self).pending() =~= consumed + self.pending()) by {
                                assert(pend_pre =~= seq![pend_pre[0]] + self.pending());
                            }
                            assert(f.accepted() =~= old(f).accepted() + consumed);
                        }
                    }
                },
                Ok(false) => {
                    proof {
                        assert(consumed =~= old(self).pending());
                    }
                    return Ok(());
                },
                Err(e) => {
                    match e {
                        StreamError::SourceError(e2) => {
                            proof {
                                assert(consumed =~= old(self).pending());
                            }
                            return Err(StreamError::SourceError(e2));
                        },
                        StreamError::SinkError(e2) => {
                            proof {
                                let k = consumed.len() as int;
                                assert(old(self).pending().take(k) =~= consumed);
                                assert(0 <= k < old(self).pending().len());
                                assert(self.pending() =~= old(self).pending().skip(k + 1)) by {
                                    assert(old(self).pending() =~= consumed + pend_pre);
                                    assert(self.pending() =~= pend_pre.drop_first());
                                }
                            }
                            return Err(StreamError::SinkError(e2));
                        },
                    }
                },
            }
        }
    }

    /// Bounds on the number of triples this source will still yield.
    fn size_hint_triples(&self) -> (r: (usize, Option<usize>))
        ensures
            r.0 <= self.pending().len(),
            match r.1 {
                Some(u) => self.pending().len() <= u,
                None => true,
            },
    {
        (0, None)
    }
}

/// A source yielding the triples of an owned list, in order; it never
/// fails.
pub struct VecTripleSource {
    items: Vec<Triple>,
    pos: usize,
}

impl VecTripleSource {
    /// The entries not consumed yet.
    closed spec fn remaining(&self) -> Seq<Triple> {
        if self.pos as int <= self.items@.len() {
            self.items@.skip(self.pos as int)
        } else {
            Seq::empty()
        }
    }

    /// A source over the given triples.
    pub fn from_triples(items: Vec<Triple>) -> (r: VecTripleSource)
        ensures
            r.pending() == triple_views(items@),
            !r.will_fail(),
    {
        let r = VecTripleSource { items, pos: 0 };
        proof {
            assert(r.remaining() =~= r.items@);
            assert(r.pending() =~= triple_views(r.items@));
        }
        r
    }
}

impl TripleSource for VecTripleSource {
    type Error = crate::dataset::NeverError;

    closed spec fn pending(&self) -> Seq<TripleV> {
        triple_views(self.remaining())
    }

    closed spec fn will_fail(&self) -> bool {
        false
    }

    closed spec fn fuel(&self) -> nat {
        self.remaining().len()
    }

    fn try_for_some_triple<S: TripleSink>(&mut self, f: &mut S) -> (r: StreamResult<
        bool,
        crate::dataset::NeverError,
        S::Error,
    >) {
        if self.pos >= self.items.len() {
            proof {
                if self.pos as int <= self.items@.len() {
                    assert(self.remaining() =~= Seq::<Triple>::empty());
                }
            }
            return Ok(false);
        }
        let ghost rest = self.remaining();
        proof {
            assert(rest =~= self.items@.skip(self.pos as int));
            assert(rest[0] == self.items@[self.pos as int]);
        }
        let td = self.items[self.pos].duplicate();
        self.pos = self.pos + 1;
        proof {
            assert(self.remaining() =~= rest.drop_first());
            assert(old(self).pending() =~= seq![td@] + self.pending());
            assert(self.pending() =~= old(self).pending().drop_first());
            assert(old(self).pending()[0] == td@);
            assert(old(self).fuel() == rest.len());
            assert(self.fuel() == rest.len() - 1);
        }
        match f.feed(td) {
            Ok(()) => Ok(true),
            Err(e) => Err(StreamError::SinkError(e)),
        }
    }
}

/// A sink that collects every triple it is fed; it never rejects one.
pub struct TripleCollector {
    /// The triples collected so far, in feed order.
    pub items: Vec<Triple>,
}

impl TripleCollector {
    /// An empty collector.
    pub fn new() -> (r: TripleCollector)
        ensures
            r.items@.len() == 0,
            r.accepted() == Seq::<TripleV>::empty(),
    {
        let r = TripleCollector { items: Vec::new() };
        proof {
            assert(r.accepted() =~= Seq::<TripleV>::empty());
        }
        r
    }
}

impl TripleSink for TripleCollector {
    type Error = crate::stream::SinkFull;

    open spec fn accepted(&self) -> Seq<TripleV> {
        triple_views(self.items@)
    }

    open spec fn always_accepts() -> bool {
        true
    }

    fn feed(&mut self, t: Triple) -> (r: Result<(), crate::stream::SinkFull>) {
        let ghost pre = triple_views(self.items@);
        self.items.push(t);
        proof {
            assert(triple_views(self.items@) =~= pre.push(self.items@[self.items@.len() - 1]@));
        }
        Ok(())
    }
}

} // verus!
