//! The indexed quad store: a set of four-position handle tuples over the
//! term dictionary, together with its scan and mutation operations.
//!
//! Every stored quad holds dictionary handles for subject, predicate and
//! object, and an optional handle for the graph name (`None` names the
//! default graph). The store owns the dictionary, and the dictionary's
//! population is entirely derived from the store's content: for every
//! live handle, its reference count equals the number of
//! (quad, position) occurrences of that handle in the store.

use vstd::prelude::*;
use crate::matcher::{GraphNameMatcher, TermMatcher};
use crate::seq_lemmas::{
    lemma_filter_all, lemma_filter_compose, lemma_filter_congruent, lemma_filter_empty_iff,
    lemma_remove_is_filter,
};
use crate::stream::{QuadCollector, QuadSink, QuadSource, StreamError, StreamResult};
use crate::term::{graph_name_ref_view, graph_name_view, same_graph_name, GraphName, Term, TermV};
use crate::term_index::TermIndexU;

verus! {

/// Largest number of quads the store accepts; keeps every reference
/// count strictly below the `u32` limit.
pub const QUAD_CAP: usize = 1073741822;

/// Spec-level image of a quad.
pub struct QuadV {
    pub s: TermV,
    pub p: TermV,
    pub o: TermV,
    pub g: Option<TermV>,
}

/// An owned quad: subject, predicate, object and graph name.
#[derive(Debug)]
pub struct Quad {
    pub s: Term,
    pub p: Term,
    pub o: Term,
    pub g: GraphName,
}

impl View for Quad {
    type V = QuadV;

    open spec fn view(&self) -> QuadV {
        QuadV { s: self.s@, p: self.p@, o: self.o@, g: graph_name_view(self.g) }
    }
}

impl Quad {
    /// The subject position.
    pub fn s(&self) -> (r: &Term)
        ensures
            r@ == self@.s,
    {
        &self.s
    }

    /// The predicate position.
    pub fn p(&self) -> (r: &Term)
        ensures
            r@ == self@.p,
    {
        &self.p
    }

    /// The object position.
    pub fn o(&self) -> (r: &Term)
        ensures
            r@ == self@.o,
    {
        &self.o
    }

    /// The graph name; `None` is the default graph.
    pub fn g(&self) -> (r: Option<&Term>)
        ensures
            graph_name_ref_view(r) == self@.g,
    {
        self.g.as_ref()
    }

    /// An owned copy with the same value.
    pub fn duplicate(&self) -> (r: Quad)
        ensures
            r@ == self@,
    {
        Quad {
            s: self.s.duplicate(),
            p: self.p.duplicate(),
            o: self.o.duplicate(),
            g: crate::term::duplicate_graph_name(self.g.as_ref()),
        }
    }
}

/// The spec image of a sequence of owned quads.
pub open spec fn quad_views(s: Seq<Quad>) -> Seq<QuadV> {
    Seq::new(s.len(), |i: int| s[i]@)
}

/// The quad value made of four position values.
pub open spec fn quad_value(s: TermV, p: TermV, o: TermV, g: Option<TermV>) -> QuadV {
    QuadV { s, p, o, g }
}

/// The spec image of an optional constant for the graph position:
/// `None` leaves the position unconstrained, `Some(None)` binds it to the
/// default graph, `Some(Some(t))` to the named graph `t`.
pub open spec fn constant_graph_view(cg: Option<Option<&Term>>) -> Option<Option<TermV>> {
    match cg {
        Some(gn) => Some(graph_name_ref_view(gn)),
        None => None,
    }
}

/// Whether `q` holds the given constants at every bound position.
pub open spec fn bound_match(
    q: QuadV,
    cs: Option<TermV>,
    cp: Option<TermV>,
    co: Option<TermV>,
    cg: Option<Option<TermV>>,
) -> bool {
    &&& match cs {
        Some(t) => q.s == t,
        None => true,
    }
    &&& match cp {
        Some(t) => q.p == t,
        None => true,
    }
    &&& match co {
        Some(t) => q.o == t,
        None => true,
    }
    &&& match cg {
        Some(gv) => q.g == gv,
        None => true,
    }
}

/// A stored quad, each position reduced to its dictionary handle.
#[derive(Clone, Copy, Debug)]
pub struct IndexedQuad {
    pub s: u32,
    pub p: u32,
    pub o: u32,
    pub g: Option<u32>,
}

/// How many of the four positions of `iq` hold handle `i`.
pub open spec fn occ_in_quad(iq: IndexedQuad, i: int) -> nat {
    (if iq.s as int == i {
        1nat
    } else {
        0nat
    }) + (if iq.p as int == i {
        1nat
    } else {
        0nat
    }) + (if iq.o as int == i {
        1nat
    } else {
        0nat
    }) + (match iq.g {
        Some(gi) => if gi as int == i {
            1nat
        } else {
            0nat
        },
        None => 0nat,
    })
}

/// Total number of (quad, position) occurrences of handle `i` in `qs`.
pub open spec fn occ_in_quads(qs: Seq<IndexedQuad>, i: int) -> nat
    decreases qs.len(),
{
    if qs.len() == 0 {
        0nat
    } else {
        occ_in_quads(qs.drop_last(), i) + occ_in_quad(qs.last(), i)
    }
}

proof fn lemma_occ_push(qs: Seq<IndexedQuad>, q: IndexedQuad, i: int)
    ensures
        occ_in_quads(qs.push(q), i) == occ_in_quads(qs, i) + occ_in_quad(q, i),
{
    assert(qs.push(q).drop_last() =~= qs);
}

proof fn lemma_occ_remove(qs: Seq<IndexedQuad>, k: int, i: int)
    requires
        0 <= k < qs.len(),
    ensures
        occ_in_quads(qs, i) == occ_in_quads(qs.remove(k), i) + occ_in_quad(qs[k], i),
    decreases qs.len(),
{
    if k == qs.len() - 1 {
        assert(qs.remove(k) =~= qs.drop_last());
    } else {
        lemma_occ_remove(qs.drop_last(), k, i);
        assert(qs.remove(k).drop_last() =~= qs.drop_last().remove(k));
        assert(qs.remove(k).last() == qs.last());
    }
}

proof fn lemma_occ_zero(qs: Seq<IndexedQuad>, i: int)
    requires
        forall|k: int| 0 <= k < qs.len() ==> occ_in_quad(#[trigger] qs[k], i) == 0,
    ensures
        occ_in_quads(qs, i) == 0,
    decreases qs.len(),
{
    if qs.len() > 0 {
        lemma_occ_zero(qs.drop_last(), i);
        assert(qs.last() == qs[qs.len() - 1]);
    }
}

proof fn lemma_occ_bound(qs: Seq<IndexedQuad>, i: int)
    ensures
        occ_in_quads(qs, i) <= 4 * qs.len(),
    decreases qs.len(),
{
    if qs.len() > 0 {
        lemma_occ_bound(qs.drop_last(), i);
    }
}

proof fn lemma_occ_at_least(qs: Seq<IndexedQuad>, k: int, i: int)
    requires
        0 <= k < qs.len(),
    ensures
        occ_in_quads(qs, i) >= occ_in_quad(qs[k], i),
    decreases qs.len(),
{
    if k == qs.len() - 1 {
        assert(qs.last() == qs[k]);
    } else {
        lemma_occ_at_least(qs.drop_last(), k, i);
    }
}

proof fn lemma_occ_witness(qs: Seq<IndexedQuad>, i: int)
    requires
        occ_in_quads(qs, i) >= 1,
    ensures
        exists|k: int| 0 <= k < qs.len() && occ_in_quad(#[trigger] qs[k], i) >= 1,
    decreases qs.len(),
{
    if qs.len() > 0 {
        if occ_in_quad(qs.last(), i) >= 1 {
            assert(qs[qs.len() - 1] == qs.last());
            assert(occ_in_quad(qs[qs.len() - 1], i) >= 1);
        } else {
            lemma_occ_witness(qs.drop_last(), i);
            let k = choose|k: int|
                0 <= k < qs.drop_last().len() && occ_in_quad(#[trigger] qs.drop_last()[k], i)
                    >= 1;
            assert(occ_in_quad(qs[k], i) >= 1);
        }
    }
}

/// Structural equality of stored quads.
fn eq_indexed(a: &IndexedQuad, b: &IndexedQuad) -> (r: bool)
    ensures
        r == (*a == *b),
{
    a.s == b.s && a.p == b.p && a.o == b.o && (match (a.g, b.g) {
        (None, None) => true,
        (Some(x), Some(y)) => x == y,
        _ => false,
    })
}

/// The spec image of a sequence of owned terms.
pub open spec fn term_views(s: Seq<Term>) -> Seq<TermV> {
    Seq::new(s.len(), |i: int| s[i]@)
}

/// Appends a copy of `t` unless an equal term is already present.
#[verifier::loop_isolation(false)]
pub fn insert_if_absent(v: &mut Vec<Term>, t: &Term)
    ensures
        term_views(old(v)@).contains(t@) ==> final(v)@ == old(v)@,
        !term_views(old(v)@).contains(t@) ==> term_views(final(v)@) == term_views(
            old(v)@,
        ).push(t@),
{
    let n = v.len();
    let mut k: usize = 0;
    while k < n
        invariant
            n == v@.len(),
            0 <= k <= n,
            forall|j: int| 0 <= j < k ==> (#[trigger] v@[j])@ != t@,
        decreases n - k,
    {
        if v[k].eq_term(t) {
            proof {
                assert(term_views(v@)[k as int] == t@);
                assert(term_views(v@).contains(t@));
            }
            return ;
        }
        k = k + 1;
    }
    proof {
        assert forall|j: int| 0 <= j < term_views(v@).len() implies term_views(v@)[j] != t@ by {}
        assert(!term_views(v@).contains(t@));
    }
    let ghost before = v@;
    v.push(t.duplicate());
    proof {
        assert(term_views(v@) =~= term_views(before).push(t@));
    }
}

/// Whether term `t` stands in some position of `q` (the graph position
/// counts only when it names a graph).
pub open spec fn appears_in(q: QuadV, t: TermV) -> bool {
    q.s == t || q.p == t || q.o == t || q.g == Some(t)
}

/// A selector for one of the four term kinds.
#[derive(Clone, Copy, Debug)]
enum KindSel {
    Iri,
    BNode,
    Literal,
    Variable,
}

/// Whether `t` is of the selected kind.
spec fn kind_matches(t: TermV, kind: KindSel) -> bool {
    match kind {
        KindSel::Iri => t is Iri,
        KindSel::BNode => t is BNode,
        KindSel::Literal => t is Literal,
        KindSel::Variable => t is Variable,
    }
}

/// Appends a copy of `t` when it is of the selected kind and not yet
/// present.
fn add_if_kind(res: &mut Vec<Term>, t: &Term, kind: KindSel)
    requires
        term_views(old(res)@).no_duplicates(),
    ensures
        term_views(final(res)@).no_duplicates(),
        forall|u: TermV| #[trigger]
            term_views(final(res)@).contains(u) <==> term_views(old(res)@).contains(u) || (u
                == t@ && kind_matches(u, kind)),
{
    let keep = match kind {
        KindSel::Iri => t.is_iri(),
        KindSel::BNode => t.is_bnode(),
        KindSel::Literal => t.is_literal(),
        KindSel::Variable => t.is_variable(),
    };
    let ghost pre = term_views(res@);
    if keep {
        insert_if_absent(res, t);
        proof {
            crate::seq_lemmas::lemma_set_insert(pre, term_views(res@), t@);
        }
    }
}

/// Whether all four matchers accept the respective positions of `q`.
pub open spec fn matchers_match(
    q: QuadV,
    ms: &TermMatcher,
    mp: &TermMatcher,
    mo: &TermMatcher,
    mg: &GraphNameMatcher,
) -> bool {
    &&& ms.spec_matches(q.s)
    &&& mp.spec_matches(q.p)
    &&& mo.spec_matches(q.o)
    &&& mg.spec_matches(q.g)
}

/// Keeps the quads accepted by all four matchers, in order.
#[verifier::loop_isolation(false)]
fn filter_by_matchers(
    v: Vec<Quad>,
    ms: &TermMatcher,
    mp: &TermMatcher,
    mo: &TermMatcher,
    mg: &GraphNameMatcher,
) -> (r: Vec<Quad>)
    ensures
        quad_views(r@) == quad_views(v@).filter(|q: QuadV| matchers_match(q, ms, mp, mo, mg)),
{
    let ghost pred = |q: QuadV| matchers_match(q, ms, mp, mo, mg);
    let mut out: Vec<Quad> = Vec::new();
    let n = v.len();
    let mut k: usize = 0;
    proof {
        assert(quad_views(out@) =~= quad_views(v@).take(0).filter(pred));
    }
    while k < n
        invariant
            quad_views(out@) == quad_views(v@).take(k as int).filter(pred),
            0 <= k <= n,
        decreases n - k,
    {
        let q = &v[k];
        let keep = ms.matches(q.s()) && mp.matches(q.p()) && mo.matches(q.o()) && mg.matches(
            q.g(),
        );
        proof {
            assert(quad_views(v@).take(k + 1) =~= quad_views(v@).take(k as int).push(
                quad_views(v@)[k as int],
            ));
            broadcast use vstd::prelude::Seq::lemma_filter_push;

            assert(keep == pred(quad_views(v@)[k as int]));
        }
        if keep {
            let ghost old_out = out@;
            out.push(q.duplicate());
            proof {
                assert(quad_views(out@) =~= quad_views(old_out).push(quad_views(v@)[k as int]));
            }
        }
        k = k + 1;
    }
    proof {
        assert(quad_views(v@).take(n as int) =~= quad_views(v@));
    }
    out
}

/// Keeps the quads rejected by at least one of the four matchers, in
/// order.
#[verifier::loop_isolation(false)]
fn filter_not_matching(
    v: Vec<Quad>,
    ms: &TermMatcher,
    mp: &TermMatcher,
    mo: &TermMatcher,
    mg: &GraphNameMatcher,
) -> (r: Vec<Quad>)
    ensures
        quad_views(r@) == quad_views(v@).filter(|q: QuadV| !matchers_match(q, ms, mp, mo, mg)),
{
    let ghost pred = |q: QuadV| !matchers_match(q, ms, mp, mo, mg);
    let mut out: Vec<Quad> = Vec::new();
    let n = v.len();
    let mut k: usize = 0;
    proof {
        assert(quad_views(out@) =~= quad_views(v@).take(0).filter(pred));
    }
    while k < n
        invariant
            quad_views(out@) == quad_views(v@).take(k as int).filter(pred),
            0 <= k <= n,
        decreases n - k,
    {
        let q = &v[k];
        let keep = !(ms.matches(q.s()) && mp.matches(q.p()) && mo.matches(q.o()) && mg.matches(
            q.g(),
        ));
        proof {
            assert(quad_views(v@).take(k + 1) =~= quad_views(v@).take(k as int).push(
                quad_views(v@)[k as int],
            ));
            broadcast use vstd::prelude::Seq::lemma_filter_push;

            assert(keep == pred(quad_views(v@)[k as int]));
        }
        if keep {
            let ghost old_out = out@;
            out.push(q.duplicate());
            proof {
                assert(quad_views(out@) =~= quad_views(old_out).push(quad_views(v@)[k as int]));
            }
        }
        k = k + 1;
    }
    proof {
        assert(quad_views(v@).take(n as int) =~= quad_views(v@));
    }
    out
}

/// One set-semantics insertion on the abstract content.
pub open spec fn spec_insert(s: Seq<QuadV>, q: QuadV) -> Seq<QuadV> {
    if s.contains(q) {
        s
    } else {
        s.push(q)
    }
}

/// Folding set-semantics insertions of `qs` into `s`, in order.
pub open spec fn spec_insert_all(s: Seq<QuadV>, qs: Seq<QuadV>) -> Seq<QuadV>
    decreases qs.len(),
{
    if qs.len() == 0 {
        s
    } else {
        spec_insert_all(spec_insert(s, qs[0]), qs.drop_first())
    }
}

/// How many of the insertions of `qs` into `s` change the content.
pub open spec fn spec_insert_count(s: Seq<QuadV>, qs: Seq<QuadV>) -> nat
    decreases qs.len(),
{
    if qs.len() == 0 {
        0nat
    } else {
        (if s.contains(qs[0]) {
            0nat
        } else {
            1nat
        }) + spec_insert_count(spec_insert(s, qs[0]), qs.drop_first())
    }
}

/// One set-semantics removal on the abstract content.
pub open spec fn spec_remove(s: Seq<QuadV>, q: QuadV) -> Seq<QuadV> {
    if s.contains(q) {
        s.filter(|x: QuadV| x != q)
    } else {
        s
    }
}

/// Folding set-semantics removals of `qs` from `s`, in order.
pub open spec fn spec_remove_all(s: Seq<QuadV>, qs: Seq<QuadV>) -> Seq<QuadV>
    decreases qs.len(),
{
    if qs.len() == 0 {
        s
    } else {
        spec_remove_all(spec_remove(s, qs[0]), qs.drop_first())
    }
}

/// How many of the removals of `qs` from `s` change the content.
pub open spec fn spec_remove_count(s: Seq<QuadV>, qs: Seq<QuadV>) -> nat
    decreases qs.len(),
{
    if qs.len() == 0 {
        0nat
    } else {
        (if s.contains(qs[0]) {
            1nat
        } else {
            0nat
        }) + spec_remove_count(spec_remove(s, qs[0]), qs.drop_first())
    }
}

proof fn lemma_insert_all_push(s: Seq<QuadV>, qs: Seq<QuadV>, q: QuadV)
    ensures
        spec_insert_all(s, qs.push(q)) == spec_insert(spec_insert_all(s, qs), q),
        spec_insert_count(s, qs.push(q)) == spec_insert_count(s, qs) + (if spec_insert_all(
            s,
            qs,
        ).contains(q) {
            0nat
        } else {
            1nat
        }),
    decreases qs.len(),
{
    reveal_with_fuel(spec_insert_all, 3);
    reveal_with_fuel(spec_insert_count, 3);
    if qs.len() == 0 {
        assert(qs.push(q).drop_first() =~= qs);
        assert(qs.push(q)[0] == q);
    } else {
        lemma_insert_all_push(spec_insert(s, qs[0]), qs.drop_first(), q);
        assert(qs.push(q).drop_first() =~= qs.drop_first().push(q));
        assert(qs.push(q)[0] == qs[0]);
    }
}

proof fn lemma_remove_all_push(s: Seq<QuadV>, qs: Seq<QuadV>, q: QuadV)
    ensures
        spec_remove_all(s, qs.push(q)) == spec_remove(spec_remove_all(s, qs), q),
        spec_remove_count(s, qs.push(q)) == spec_remove_count(s, qs) + (if spec_remove_all(
            s,
            qs,
        ).contains(q) {
            1nat
        } else {
            0nat
        }),
    decreases qs.len(),
{
    reveal_with_fuel(spec_remove_all, 3);
    reveal_with_fuel(spec_remove_count, 3);
    if qs.len() == 0 {
        assert(qs.push(q).drop_first() =~= qs);
        assert(qs.push(q)[0] == q);
    } else {
        lemma_remove_all_push(spec_remove(s, qs[0]), qs.drop_first(), q);
        assert(qs.push(q).drop_first() =~= qs.drop_first().push(q));
        assert(qs.push(q)[0] == qs[0]);
    }
}

/// The error type of a backend whose storage operations cannot fail.
#[derive(Clone, Copy, Debug)]
pub struct NeverError;

/// An in-memory quad store with set semantics, storing its terms in a
/// [`TermIndexU`] and its quads as handle tuples.
pub struct HashDataset {
    terms: TermIndexU,
    quads: Vec<IndexedQuad>,
}

impl View for HashDataset {
    type V = Seq<QuadV>;

    /// The stored quads, handles resolved back to term values, in
    /// container order.
    closed spec fn view(&self) -> Seq<QuadV> {
        Seq::new(self.quads@.len(), |k: int| self.resolve(self.quads@[k]))
    }
}

impl HashDataset {
    /// The term value tuple a stored quad stands for.
    closed spec fn resolve(self, iq: IndexedQuad) -> QuadV {
        QuadV {
            s: self.terms.term_at(iq.s as int),
            p: self.terms.term_at(iq.p as int),
            o: self.terms.term_at(iq.o as int),
            g: match iq.g {
                Some(gi) => Some(self.terms.term_at(gi as int)),
                None => None,
            },
        }
    }

    /// All four positions of `iq` are live dictionary handles.
    closed spec fn iq_live(self, iq: IndexedQuad) -> bool {
        &&& self.terms.is_live(iq.s as int)
        &&& self.terms.is_live(iq.p as int)
        &&& self.terms.is_live(iq.o as int)
        &&& match iq.g {
            Some(gi) => self.terms.is_live(gi as int),
            None => true,
        }
    }

    /// Number of dictionary slots backing this store.
    pub closed spec fn term_slots(self) -> nat {
        self.terms.n_slots()
    }

    /// True when handle `i` is live in the backing dictionary.
    pub closed spec fn index_live(self, i: int) -> bool {
        self.terms.is_live(i)
    }

    /// The term behind live handle `i`.
    pub closed spec fn index_term(self, i: int) -> TermV {
        self.terms.term_at(i)
    }

    /// The reference count of live handle `i`.
    pub closed spec fn index_rc(self, i: int) -> nat {
        self.terms.rc_at(i)
    }

    /// True when some live handle holds the term `t`.
    pub open spec fn has_live_term(self, t: TermV) -> bool {
        exists|i: int| self.index_live(i) && #[trigger] self.index_term(i) == t
    }

    /// Number of (quad, position) occurrences of handle `i` in the store.
    pub closed spec fn occurrences(self, i: int) -> nat {
        occ_in_quads(self.quads@, i)
    }

    /// The store invariant: the dictionary is well formed, every stored
    /// position is live, no quad is stored twice, and every live handle's
    /// reference count equals its number of occurrences.
    pub closed spec fn inv(self) -> bool {
        &&& self.terms.wf()
        &&& forall|k: int| 0 <= k < self.quads@.len() ==> self.iq_live(#[trigger] self.quads@[k])
        &&& self.quads@.no_duplicates()
        &&& forall|i: int|
            self.terms.is_live(i) ==> self.terms.rc_at(i) == occ_in_quads(self.quads@, i)
    }

    /// Reference counting is conservative: in a well-formed store, every
    /// live handle is referenced exactly as often as its count says.
    pub proof fn lemma_refcount_conservation(&self)
        requires
            self.inv(),
        ensures
            forall|i: int| self.index_live(i) ==> self.index_rc(i) == self.occurrences(i),
    {
    }

    /// Distinct live handles hold distinct terms: interning is a
    /// bijection between live handles and the distinct terms in use.
    pub proof fn lemma_index_injective(&self)
        requires
            self.inv(),
        ensures
            forall|i: int, j: int|
                self.index_live(i) && self.index_live(j) && i != j ==> #[trigger] self.index_term(
                    i,
                ) != #[trigger] self.index_term(j),
    {
        self.terms.lemma_wf_facts();
    }

    /// Every live handle's term stands in some position of some stored
    /// quad: the dictionary's population never outgrows the content.
    #[verifier::rlimit(100)]
    pub proof fn lemma_live_terms_occur(&self)
        requires
            self.inv(),
        ensures
            forall|i: int|
                self.index_live(i) ==> exists|k: int|
                    0 <= k < self@.len() && appears_in(#[trigger] self@[k], self.index_term(i)),
    {
        self.terms.lemma_wf_facts();
        assert forall|i: int| self.index_live(i) implies exists|k: int|
            0 <= k < self@.len() && appears_in(#[trigger] self@[k], self.index_term(i)) by {
            assert(self.terms.rc_at(i) >= 1);
            assert(occ_in_quads(self.quads@, i) >= 1);
            lemma_occ_witness(self.quads@, i);
            let k = choose|k: int|
                0 <= k < self.quads@.len() && occ_in_quad(#[trigger] self.quads@[k], i) >= 1;
            assert(appears_in(self@[k], self.index_term(i)));
        }
    }

    /// Every term standing in a stored quad is held by a live handle:
    /// the content never outgrows the dictionary's population.
    #[verifier::rlimit(100)]
    pub proof fn lemma_content_terms_live(&self)
        requires
            self.inv(),
        ensures
            forall|k: int| #![trigger self@[k]]
                0 <= k < self@.len() ==> self.has_live_term(self@[k].s) && self.has_live_term(
                    self@[k].p,
                ) && self.has_live_term(self@[k].o) && (match self@[k].g {
                    Some(t) => self.has_live_term(t),
                    None => true,
                }),
    {
        assert forall|k: int| #![trigger self@[k]]
            0 <= k < self@.len() implies self.has_live_term(self@[k].s) && self.has_live_term(
            self@[k].p,
        ) && self.has_live_term(self@[k].o) && (match self@[k].g {
            Some(t) => self.has_live_term(t),
            None => true,
        }) by {
            assert(self.iq_live(self.quads@[k]));
            let iq = self.quads@[k];
            assert(self.index_live(iq.s as int) && self.index_term(iq.s as int) == self@[k].s);
            assert(self.index_live(iq.p as int) && self.index_term(iq.p as int) == self@[k].p);
            assert(self.index_live(iq.o as int) && self.index_term(iq.o as int) == self@[k].o);
            match iq.g {
                Some(gx) => {
                    assert(self.index_live(gx as int) && self.index_term(gx as int)
                        == self@[k].g->0);
                },
                None => {},
            }
        }
    }

    /// Two distinct stored quads resolve to distinct value tuples.
    proof fn lemma_resolve_injective(self, a: IndexedQuad, b: IndexedQuad)
        requires
            self.terms.wf(),
            self.iq_live(a),
            self.iq_live(b),
            self.resolve(a) == self.resolve(b),
        ensures
            a == b,
    {
        self.terms.lemma_wf_facts();
        assert(a.s == b.s) by {
            if a.s != b.s {
                assert(self.terms.term_at(a.s as int) != self.terms.term_at(b.s as int));
            }
        }
        assert(a.p == b.p) by {
            if a.p != b.p {
                assert(self.terms.term_at(a.p as int) != self.terms.term_at(b.p as int));
            }
        }
        assert(a.o == b.o) by {
            if a.o != b.o {
                assert(self.terms.term_at(a.o as int) != self.terms.term_at(b.o as int));
            }
        }
        match (a.g, b.g) {
            (Some(x), Some(y)) => {
                if x != y {
                    assert(self.terms.term_at(x as int) != self.terms.term_at(y as int));
                }
            },
            _ => {},
        }
    }

    /// A value tuple is in the view exactly when its handle tuple is
    /// stored.
    proof fn lemma_contains_iff(self, iq: IndexedQuad)
        requires
            self.inv(),
            self.iq_live(iq),
        ensures
            self@.contains(self.resolve(iq)) <==> self.quads@.contains(iq),
    {
        if self.quads@.contains(iq) {
            let k = choose|k: int| 0 <= k < self.quads@.len() && self.quads@[k] == iq;
            assert(self@[k] == self.resolve(iq));
        }
        if self@.contains(self.resolve(iq)) {
            let k = choose|k: int| 0 <= k < self@.len() && self@[k] == self.resolve(iq);
            self.lemma_resolve_injective(self.quads@[k], iq);
            assert(self.quads@[k] == iq);
        }
    }

    /// The view holds no quad twice.
    pub proof fn lemma_view_no_duplicates(&self)
        requires
            self.inv(),
        ensures
            self@.no_duplicates(),
    {
        assert forall|a: int, b: int| 0 <= a < b < self@.len() implies self@[a] != self@[b] by {
            if self@[a] == self@[b] {
                self.lemma_resolve_injective(self.quads@[a], self.quads@[b]);
            }
        }
    }

    /// An empty quad store.
    pub fn new() -> (d: HashDataset)
        ensures
            d.inv(),
            d@ == Seq::<QuadV>::empty(),
            d.term_slots() == 0,
            forall|i: int| !d.index_live(i),
            forall|i: int| d.occurrences(i) == 0,
    {
        let d = HashDataset { terms: TermIndexU::new(), quads: Vec::new() };
        proof {
            assert(d@ =~= Seq::<QuadV>::empty());
        }
        d
    }

    /// Number of stored quads.
    pub fn len(&self) -> (r: usize)
        ensures
            r == self@.len(),
    {
        self.quads.len()
    }

    /// True when the store holds no quad.
    pub fn is_empty(&self) -> (r: bool)
        ensures
            r == (self@.len() == 0),
    {
        self.quads.is_empty()
    }

    /// Inserts the given quad. Every position is interned optimistically
    /// (always incrementing or creating); when the container reports the
    /// quad was already present, the four increments are rolled back and
    /// the store is unchanged. Returns whether the store changed.
    #[verifier::rlimit(100)]
    pub fn insert_quad(&mut self, s: &Term, p: &Term, o: &Term, g: Option<&Term>) -> (r: bool)
        requires
            old(self).inv(),
            old(self)@.len() < QUAD_CAP as nat,
            old(self).term_slots() + 4 <= u32::MAX as nat,
        ensures
            final(self).inv(),
            r == !old(self)@.contains(
                QuadV { s: s@, p: p@, o: o@, g: graph_name_ref_view(g) },
            ),
            r ==> final(self)@ == old(self)@.push(
                QuadV { s: s@, p: p@, o: o@, g: graph_name_ref_view(g) },
            ),
            !r ==> final(self)@ == old(self)@,
            final(self)@ == spec_insert(
                old(self)@,
                quad_value(s@, p@, o@, graph_name_ref_view(g)),
            ),
            r ==> forall|j: int|
                #[trigger] old(self).index_live(j) ==> final(self).index_live(j)
                    && final(self).index_term(j) == old(self).index_term(j),
            r ==> forall|j: int|
                #[trigger] final(self).index_live(j) ==> old(self).index_live(j)
                    || final(self).index_term(j) == s@ || final(self).index_term(j) == p@
                    || final(self).index_term(j) == o@ || (match graph_name_ref_view(g) {
                    Some(tv) => final(self).index_term(j) == tv,
                    None => false,
                }),
            !r ==> forall|j: int|
                #[trigger] final(self).index_live(j) == old(self).index_live(j) && (old(
                    self,
                ).index_live(j) ==> final(self).index_term(j) == old(self).index_term(j)
                    && final(self).index_rc(j) == old(self).index_rc(j)),
            final(self).term_slots() <= old(self).term_slots() + 4,
    {
        let ghost qs = self.quads@;
        let ghost d0 = self.terms;
        let ghost qv = QuadV { s: s@, p: p@, o: o@, g: graph_name_ref_view(g) };
        proof {
            self.terms.lemma_wf_facts();
            assert forall|j: int| d0.is_live(j) implies d0.rc_at(j) + 4 <= u32::MAX as nat by {
                lemma_occ_bound(qs, j);
            }
        }
        let si = self.terms.make_index(s);
        let ghost d1 = self.terms;
        proof {
            d1.lemma_wf_facts();
            assert forall|j: int| d1.is_live(j) implies d1.rc_at(j) == occ_in_quads(qs, j) + (
            if si as int == j {
                1nat
            } else {
                0nat
            }) by {
                if si as int == j {
                    if !d0.has_term(s@) {
                        assert forall|k: int|
                            0 <= k < qs.len() implies occ_in_quad(#[trigger] qs[k], j) == 0 by {
                            assert(old(self).iq_live(qs[k]));
                        }
                        lemma_occ_zero(qs, j);
                    }
                } else {
                    assert(d0.is_live(j));
                }
            }
            assert(d1.is_live(si as int) && d1.term_at(si as int) == s@);
            assert forall|j: int| d0.is_live(j) implies d1.is_live(j) && d1.term_at(j) == d0.term_at(
                j,
            ) by {
                if j == si as int {
                    assert(d0.has_term(s@) || !d0.is_live(j));
                }
            }
        }
        let pi = self.terms.make_index(p);
        let ghost d2 = self.terms;
        proof {
            d2.lemma_wf_facts();
            assert forall|j: int| d2.is_live(j) implies d2.rc_at(j) == occ_in_quads(qs, j) + (
            if si as int == j {
                1nat
            } else {
                0nat
            }) + (if pi as int == j {
                1nat
            } else {
                0nat
            }) by {
                if pi as int == j {
                    if !d1.has_term(p@) {
                        assert(!d1.is_live(j));
                        assert(!d0.is_live(j));
                        assert(si as int != j);
                        assert forall|k: int|
                            0 <= k < qs.len() implies occ_in_quad(#[trigger] qs[k], j) == 0 by {
                            assert(old(self).iq_live(qs[k]));
                        }
                        lemma_occ_zero(qs, j);
                    } else {
                        assert(d1.is_live(j));
                    }
                } else {
                    assert(d1.is_live(j));
                }
            }
            assert(d2.is_live(si as int) && d2.term_at(si as int) == s@);
            assert(d2.is_live(pi as int) && d2.term_at(pi as int) == p@);
            assert forall|j: int| d0.is_live(j) implies d2.is_live(j) && d2.term_at(j) == d0.term_at(
                j,
            ) by {
                if j == si as int {
                    assert(d0.has_term(s@) || !d0.is_live(j));
                }
                assert(d1.is_live(j) && d1.term_at(j) == d0.term_at(j));
                if j == pi as int {
                    assert(d1.has_term(p@) || !d1.is_live(j));
                }
            }
        }
        let oi = self.terms.make_index(o);
        let ghost d3 = self.terms;
        proof {
            d3.lemma_wf_facts();
            assert forall|j: int| d3.is_live(j) implies d3.rc_at(j) == occ_in_quads(qs, j) + (
            if si as int == j {
                1nat
            } else {
                0nat
            }) + (if pi as int == j {
                1nat
            } else {
                0nat
            }) + (if oi as int == j {
                1nat
            } else {
                0nat
            }) by {
                if oi as int == j {
                    if !d2.has_term(o@) {
                        assert(!d2.is_live(j));
                        assert(!d0.is_live(j));
                        assert(si as int != j && pi as int != j);
                        assert forall|k: int|
                            0 <= k < qs.len() implies occ_in_quad(#[trigger] qs[k], j) == 0 by {
                            assert(old(self).iq_live(qs[k]));
                        }
                        lemma_occ_zero(qs, j);
                    } else {
                        assert(d2.is_live(j));
                    }
                } else {
                    assert(d2.is_live(j));
                }
            }
            assert(d3.is_live(si as int) && d3.term_at(si as int) == s@);
            assert(d3.is_live(pi as int) && d3.term_at(pi as int) == p@);
            assert(d3.is_live(oi as int) && d3.term_at(oi as int) == o@);
            assert forall|j: int| d0.is_live(j) implies d3.is_live(j) && d3.term_at(j) == d0.term_at(
                j,
            ) by {
                if j == si as int {
                    assert(d0.has_term(s@) || !d0.is_live(j));
                }
                assert(d1.is_live(j) && d1.term_at(j) == d0.term_at(j));
                if j == pi as int {
                    assert(d1.has_term(p@) || !d1.is_live(j));
                }
                assert(d2.is_live(j) && d2.term_at(j) == d1.term_at(j));
                if j == oi as int {
                    assert(d2.has_term(o@) || !d2.is_live(j));
                }
            }
        }
        let gi: Option<u32> = match g {
            Some(t) => Some(self.terms.make_index(t)),
            None => None,
        };
        let iq = IndexedQuad { s: si, p: pi, o: oi, g: gi };
        let ghost d4 = self.terms;
        proof {
            d4.lemma_wf_facts();
            assert forall|j: int| d4.is_live(j) implies d4.rc_at(j) == occ_in_quads(qs, j)
                + occ_in_quad(iq, j) by {
                match g {
                    Some(t) => {
                        let gix = iq.g->0;
                        if gix as int == j {
                            if !d3.has_term(t@) {
                                assert(!d3.is_live(j));
                                assert(!d0.is_live(j));
                                assert(si as int != j && pi as int != j && oi as int != j);
                                assert forall|k: int|
                                    0 <= k < qs.len() implies occ_in_quad(#[trigger] qs[k], j)
                                    == 0 by {
                                    assert(old(self).iq_live(qs[k]));
                                }
                                lemma_occ_zero(qs, j);
                            } else {
                                assert(d3.is_live(j));
                            }
                        } else {
                            assert(d3.is_live(j));
                        }
                    },
                    None => {
                        assert(d3.is_live(j));
                    },
                }
            }
            assert(self.iq_live(iq));
            assert(self.resolve(iq) == qv) by {
                match g {
                    Some(t) => {
                        assert(d4.term_at(iq.g->0 as int) == t@);
                    },
                    None => {},
                }
            }
            assert forall|j: int| d0.is_live(j) implies d4.is_live(j) && d4.term_at(j) == d0.term_at(
                j,
            ) by {
                if j == si as int {
                    assert(d0.has_term(s@) || !d0.is_live(j));
                }
                assert(d1.is_live(j) && d1.term_at(j) == d0.term_at(j));
                if j == pi as int {
                    assert(d1.has_term(p@) || !d1.is_live(j));
                }
                assert(d2.is_live(j) && d2.term_at(j) == d1.term_at(j));
                if j == oi as int {
                    assert(d2.has_term(o@) || !d2.is_live(j));
                }
                assert(d3.is_live(j) && d3.term_at(j) == d2.term_at(j));
                match iq.g {
                    Some(gx) => {
                        if j == gx as int {
                            assert(d3.has_term(d4.term_at(gx as int)) || !d3.is_live(j));
                        }
                    },
                    None => {},
                }
            }
            assert forall|k: int| 0 <= k < qs.len() implies self.iq_live(#[trigger] qs[k])
                && self.resolve(qs[k]) == old(self).resolve(qs[k]) by {
                assert(old(self).iq_live(qs[k]));
            }
            assert(self@ =~= old(self)@);
            assert(old(self)@.contains(qv) <==> qs.contains(iq)) by {
                let gok = match g {
                    Some(t) => d3.has_term(t@),
                    None => true,
                };
                if d0.has_term(s@) && d1.has_term(p@) && d2.has_term(o@) && gok {
                    assert(d0.is_live(si as int) && d0.term_at(si as int) == s@);
                    assert(d0.is_live(pi as int) && d0.term_at(pi as int) == p@) by {
                        assert(d1.is_live(pi as int) && d1.term_at(pi as int) == p@);
                    }
                    assert(d0.is_live(oi as int) && d0.term_at(oi as int) == o@) by {
                        assert(d2.is_live(oi as int) && d2.term_at(oi as int) == o@);
                        assert(d1.is_live(oi as int) && d1.term_at(oi as int) == o@);
                    }
                    match g {
                        Some(t) => {
                            let gx = iq.g->0;
                            assert(d0.is_live(gx as int) && d0.term_at(gx as int) == t@) by {
                                assert(d3.is_live(gx as int) && d3.term_at(gx as int) == t@);
                                assert(d2.is_live(gx as int) && d2.term_at(gx as int) == t@);
                                assert(d1.is_live(gx as int) && d1.term_at(gx as int) == t@);
                            }
                        },
                        None => {},
                    }
                    assert(old(self).iq_live(iq));
                    assert(old(self).resolve(iq) == qv);
                    old(self).lemma_contains_iff(iq);
                } else {
                    let fidx: int = if !d0.has_term(s@) {
                        si as int
                    } else if !d1.has_term(p@) {
                        pi as int
                    } else if !d2.has_term(o@) {
                        oi as int
                    } else {
                        iq.g->0 as int
                    };
                    assert(!d0.is_live(fidx)) by {
                        if !d0.has_term(s@) {
                        } else if !d1.has_term(p@) {
                            assert(!d1.is_live(pi as int));
                            assert(d1.is_live(si as int));
                        } else if !d2.has_term(o@) {
                            assert(!d2.is_live(oi as int));
                            assert(d2.is_live(si as int) && d2.is_live(pi as int));
                            assert(!d1.is_live(oi as int));
                        } else {
                            let gx = iq.g->0;
                            assert(!d3.is_live(gx as int));
                            assert(d3.is_live(si as int) && d3.is_live(pi as int) && d3.is_live(
                                oi as int,
                            ));
                            assert(!d2.is_live(gx as int));
                            assert(!d1.is_live(gx as int));
                        }
                    }
                    assert(occ_in_quad(iq, fidx) >= 1);
                    assert forall|k: int|
                        0 <= k < qs.len() implies occ_in_quad(#[trigger] qs[k], fidx) == 0 by {
                        assert(old(self).iq_live(qs[k]));
                    }
                    assert(!qs.contains(iq)) by {
                        if qs.contains(iq) {
                            let k0 = choose|k: int| 0 <= k < qs.len() && qs[k] == iq;
                            lemma_occ_at_least(qs, k0, fidx);
                            lemma_occ_zero(qs, fidx);
                        }
                    }
                    assert forall|k: int| 0 <= k < qs.len() implies old(self)@[k] != qv by {
                        assert(old(self).iq_live(qs[k]));
                        if !d0.has_term(s@) {
                            assert(!(d0.is_live(qs[k].s as int) && d0.term_at(qs[k].s as int)
                                == s@));
                        } else if !d1.has_term(p@) {
                            assert(!d0.has_term(p@)) by {
                                if d0.has_term(p@) {
                                    let j = choose|j: int|
                                        d0.is_live(j) && d0.term_at(j) == p@;
                                    assert(d1.is_live(j) && d1.term_at(j) == p@);
                                }
                            }
                            assert(!(d0.is_live(qs[k].p as int) && d0.term_at(qs[k].p as int)
                                == p@));
                        } else if !d2.has_term(o@) {
                            assert(!d0.has_term(o@)) by {
                                if d0.has_term(o@) {
                                    let j = choose|j: int|
                                        d0.is_live(j) && d0.term_at(j) == o@;
                                    assert(d1.is_live(j) && d1.term_at(j) == o@);
                                    assert(d2.is_live(j) && d2.term_at(j) == o@);
                                }
                            }
                            assert(!(d0.is_live(qs[k].o as int) && d0.term_at(qs[k].o as int)
                                == o@));
                        } else {
                            match g {
                                Some(t) => {
                                    assert(!d0.has_term(t@)) by {
                                        if d0.has_term(t@) {
                                            let j = choose|j: int|
                                                d0.is_live(j) && d0.term_at(j) == t@;
                                            assert(d1.is_live(j) && d1.term_at(j) == t@);
                                            assert(d2.is_live(j) && d2.term_at(j) == t@);
                                            assert(d3.is_live(j) && d3.term_at(j) == t@);
                                        }
                                    }
                                    match qs[k].g {
                                        Some(gk) => {
                                            assert(!(d0.is_live(gk as int) && d0.term_at(
                                                gk as int,
                                            ) == t@));
                                        },
                                        None => {},
                                    }
                                },
                                None => {
                                    assert(false);
                                },
                            }
                        }
                    }
                    assert(!old(self)@.contains(qv)) by {
                        if old(self)@.contains(qv) {
                            let k = choose|k: int|
                                0 <= k < old(self)@.len() && old(self)@[k] == qv;
                        }
                    }
                }
            }
        }
        match self.find_quad(&iq) {
            None => {
                proof {
                    assert(!old(self)@.contains(qv));
                }
                self.quads.push(iq);
                proof {
                    assert forall|j: int| self.terms.is_live(j) implies self.terms.rc_at(j)
                        == occ_in_quads(self.quads@, j) by {
                        lemma_occ_push(qs, iq, j);
                    }
                    assert forall|k: int|
                        0 <= k < self.quads@.len() implies self.iq_live(
                        #[trigger] self.quads@[k],
                    ) by {
                        if k < qs.len() {
                            assert(old(self).iq_live(qs[k]));
                        }
                    }
                    assert(self.quads@.no_duplicates());
                    assert(self@ =~= old(self)@.push(qv)) by {
                        assert forall|k: int| 0 <= k < qs.len() implies self@[k] == old(
                            self,
                        )@[k] by {
                            assert(old(self).iq_live(qs[k]));
                        }
                        assert(self@[qs.len() as int] == qv);
                    }
                    assert forall|j: int|
                        #[trigger] self.terms.is_live(j) && !d0.is_live(j) implies self.terms.term_at(
                        j,
                    ) == s@ || self.terms.term_at(j) == p@ || self.terms.term_at(j) == o@ || (
                    match graph_name_ref_view(g) {
                        Some(tv) => self.terms.term_at(j) == tv,
                        None => false,
                    }) by {
                        let in_g = match iq.g {
                            Some(gx) => j == gx as int,
                            None => false,
                        };
                        if !in_g {
                            assert(d3.is_live(j));
                            if j != oi as int {
                                assert(d2.is_live(j));
                                if j != pi as int {
                                    assert(d1.is_live(j));
                                    assert(j == si as int);
                                }
                            }
                        }
                    }
                }
                true
            },
            Some(_) => {
                proof {
                    assert(old(self)@.contains(qv));
                    assert(self.quads@.contains(iq));
                    let k0 = choose|k: int| 0 <= k < qs.len() && qs[k] == iq;
                    assert(qs[k0] == iq);
                    assert forall|j: int| d4.is_live(j) implies occ_in_quads(qs, j) >= 1 by {
                        assert(d4.rc_at(j) == occ_in_quads(qs, j) + occ_in_quad(iq, j));
                        if occ_in_quad(iq, j) >= 1 {
                            lemma_occ_at_least(qs, k0, j);
                        }
                    }
                }
                self.release_quad(iq);
                proof {
                    assert(self@ =~= old(self)@) by {
                        assert forall|k: int| 0 <= k < qs.len() implies self@[k] == old(
                            self,
                        )@[k] by {
                            assert(old(self).iq_live(qs[k]));
                            assert(d4.is_live(qs[k].s as int) && self.terms.is_live(
                                qs[k].s as int,
                            ));
                            assert(d4.is_live(qs[k].p as int) && self.terms.is_live(
                                qs[k].p as int,
                            ));
                            assert(d4.is_live(qs[k].o as int) && self.terms.is_live(
                                qs[k].o as int,
                            ));
                            match qs[k].g {
                                Some(gk) => {
                                    assert(d4.is_live(gk as int) && self.terms.is_live(
                                        gk as int,
                                    ));
                                },
                                None => {},
                            }
                        }
                    }
                    let k0 = choose|k: int| 0 <= k < qs.len() && qs[k] == iq;
                    assert(qs[k0] == iq);
                    assert(old(self).iq_live(qs[k0]));
                    assert forall|j: int| d4.is_live(j) implies d0.is_live(j) && d4.term_at(j)
                        == d0.term_at(j) by {
                        let in_g = match iq.g {
                            Some(gx) => j == gx as int,
                            None => false,
                        };
                        if !in_g {
                            assert(d3.is_live(j));
                            if j != oi as int {
                                assert(d2.is_live(j));
                                if j != pi as int {
                                    assert(d1.is_live(j));
                                }
                            }
                        }
                        assert(d0.is_live(j));
                        assert(d1.is_live(j) && d1.term_at(j) == d0.term_at(j));
                        assert(d2.is_live(j) && d2.term_at(j) == d1.term_at(j));
                        assert(d3.is_live(j) && d3.term_at(j) == d2.term_at(j));
                    }
                    assert forall|j: int|
                        #[trigger] self.terms.is_live(j) == d0.is_live(j) && (d0.is_live(j)
                            ==> self.terms.term_at(j) == d0.term_at(j) && self.terms.rc_at(j)
                            == d0.rc_at(j)) by {
                        if d0.is_live(j) {
                            assert(d4.is_live(j));
                            assert(occ_in_quads(qs, j) >= 1);
                            assert(self.terms.is_live(j));
                            assert(self.terms.rc_at(j) == occ_in_quads(qs, j));
                        }
                        if self.terms.is_live(j) {
                            assert(d4.is_live(j));
                        }
                    }
                }
                false
            },
        }
    }

    /// Removes the given quad, resolving each position through a
    /// read-only dictionary lookup first: when any position was never
    /// interned, the quad cannot be present. On success every position's
    /// reference count is released. Returns whether the store changed.
    #[verifier::rlimit(100)]
    pub fn remove_quad(&mut self, s: &Term, p: &Term, o: &Term, g: Option<&Term>) -> (r: bool)
        requires
            old(self).inv(),
        ensures
            final(self).inv(),
            r == old(self)@.contains(quad_value(s@, p@, o@, graph_name_ref_view(g))),
            r ==> final(self)@ == old(self)@.filter(
                |x: QuadV| x != quad_value(s@, p@, o@, graph_name_ref_view(g)),
            ) && final(self)@.len() == old(self)@.len() - 1,
            r ==> forall|j: int|
                #[trigger] final(self).index_live(j) ==> old(self).index_live(j)
                    && final(self).index_term(j) == old(self).index_term(j),
            !r ==> *final(self) == *old(self),
            final(self)@ == spec_remove(
                old(self)@,
                quad_value(s@, p@, o@, graph_name_ref_view(g)),
            ),
            final(self).term_slots() == old(self).term_slots(),
    {
        let ghost qv = quad_value(s@, p@, o@, graph_name_ref_view(g));
        proof {
            self.terms.lemma_wf_facts();
        }
        let si: u32;
        match self.terms.get_index(s) {
            Some(i) => {
                si = i;
            },
            None => {
                proof {
                    assert forall|k: int| 0 <= k < old(self)@.len() implies old(self)@[k]
                        != qv by {
                        assert(self.iq_live(self.quads@[k]));
                    }
                }
                return false;
            },
        }
        let pi: u32;
        match self.terms.get_index(p) {
            Some(i) => {
                pi = i;
            },
            None => {
                proof {
                    assert forall|k: int| 0 <= k < old(self)@.len() implies old(self)@[k]
                        != qv by {
                        assert(self.iq_live(self.quads@[k]));
                    }
                }
                return false;
            },
        }
        let oi: u32;
        match self.terms.get_index(o) {
            Some(i) => {
                oi = i;
            },
            None => {
                proof {
                    assert forall|k: int| 0 <= k < old(self)@.len() implies old(self)@[k]
                        != qv by {
                        assert(self.iq_live(self.quads@[k]));
                    }
                }
                return false;
            },
        }
        let gi: Option<u32>;
        match g {
            Some(t) => {
                match self.terms.get_index(t) {
                    Some(i) => {
                        gi = Some(i);
                    },
                    None => {
                        proof {
                            assert forall|k: int| 0 <= k < old(self)@.len() implies old(
                                self,
                            )@[k] != qv by {
                                assert(self.iq_live(self.quads@[k]));
                                match self.quads@[k].g {
                                    Some(gk) => {},
                                    None => {},
                                }
                            }
                        }
                        return false;
                    },
                }
            },
            None => {
                gi = None;
            },
        }
        let iq = IndexedQuad { s: si, p: pi, o: oi, g: gi };
        proof {
            assert(self.iq_live(iq));
            assert(self.resolve(iq) == qv);
            self.lemma_contains_iff(iq);
            self.lemma_view_no_duplicates();
        }
        match self.find_quad(&iq) {
            None => {
                false
            },
            Some(k) => {
                let ghost qs = self.quads@;
                proof {
                    assert(qs[k as int] == iq);
                    assert(old(self)@[k as int] == qv);
                    assert(old(self)@.contains(qv));
                }
                self.quads.remove(k);
                proof {
                    assert(self.quads@ == qs.remove(k as int));
                    assert forall|j: int| self.terms.is_live(j) implies self.terms.rc_at(j)
                        == occ_in_quads(self.quads@, j) + occ_in_quad(iq, j) by {
                        lemma_occ_remove(qs, k as int, j);
                    }
                    assert forall|k2: int|
                        0 <= k2 < self.quads@.len() implies self.iq_live(
                        #[trigger] self.quads@[k2],
                    ) by {
                        let k0 = if k2 < k as int {
                            k2
                        } else {
                            k2 + 1
                        };
                        assert(self.quads@[k2] == qs[k0]);
                        assert(old(self).iq_live(qs[k0]));
                    }
                    crate::seq_lemmas::lemma_remove_preserves_no_duplicates(qs, k as int);
                }
                self.release_quad(iq);
                proof {
                    assert(self@ =~= old(self)@.remove(k as int)) by {
                        assert forall|k2: int| 0 <= k2 < self@.len() implies self@[k2] == old(
                            self,
                        )@.remove(k as int)[k2] by {
                            let k0 = if k2 < k as int {
                                k2
                            } else {
                                k2 + 1
                            };
                            assert(self.quads@[k2] == qs[k0]);
                            assert(old(self).iq_live(qs[k0]));
                            assert forall|j: int|
                                old(self).terms.is_live(j) && occ_in_quads(
                                    qs.remove(k as int),
                                    j,
                                ) >= 1 implies self.terms.is_live(j) && self.terms.term_at(j)
                                == old(self).terms.term_at(j) by {}
                            lemma_occ_at_least(qs.remove(k as int), k2, qs[k0].s as int);
                            lemma_occ_at_least(qs.remove(k as int), k2, qs[k0].p as int);
                            lemma_occ_at_least(qs.remove(k as int), k2, qs[k0].o as int);
                            match qs[k0].g {
                                Some(gk) => {
                                    lemma_occ_at_least(qs.remove(k as int), k2, gk as int);
                                },
                                None => {},
                            }
                        }
                    }
                    lemma_remove_is_filter(old(self)@, k as int);
                    crate::seq_lemmas::lemma_filter_congruent(
                        old(self)@,
                        |x: QuadV| x != old(self)@[k as int],
                        |x: QuadV| x != qv,
                    );
                    assert(self@ == old(self)@.filter(|x: QuadV| x != qv));
                    assert(spec_remove(old(self)@, qv) == old(self)@.filter(
                        |x: QuadV| x != qv,
                    ));
                }
                true
            },
        }
    }

    /// Releases one reference per position of a quad that has just left
    /// the container; a count reaching zero frees its slot.
    fn release_quad(&mut self, iq: IndexedQuad)
        requires
            old(self).terms.wf(),
            forall|j: int|
                old(self).terms.is_live(j) ==> old(self).terms.rc_at(j) == occ_in_quads(
                    old(self).quads@,
                    j,
                ) + occ_in_quad(iq, j),
            forall|k: int|
                0 <= k < old(self).quads@.len() ==> old(self).iq_live(
                    #[trigger] old(self).quads@[k],
                ),
            old(self).quads@.no_duplicates(),
            old(self).iq_live(iq),
        ensures
            final(self).quads@ == old(self).quads@,
            final(self).inv(),
            final(self).terms.n_slots() == old(self).terms.n_slots(),
            forall|j: int|
                final(self).terms.is_live(j) ==> old(self).terms.is_live(j)
                    && final(self).terms.term_at(j) == old(self).terms.term_at(j),
            forall|j: int|
                old(self).terms.is_live(j) && occ_in_quads(old(self).quads@, j) >= 1
                    ==> final(self).terms.is_live(j),
    {
        let ghost qs2 = old(self).quads@;
        let ghost d0r = old(self).terms;
        proof {
            self.terms.lemma_wf_facts();
        }
        self.terms.dec_ref(iq.s);
        let ghost e1 = self.terms;
        proof {
            assert forall|j: int| d0r.is_live(j) implies ({
                let rem = occ_in_quads(qs2, j) + occ_in_quad(iq, j) - (if iq.s as int == j {
                    1int
                } else {
                    0int
                });
                &&& (rem >= 1 ==> e1.is_live(j) && e1.rc_at(j) as int == rem && e1.term_at(j)
                    == d0r.term_at(j))
                &&& (rem == 0 ==> !e1.is_live(j))
            }) by {
                if j != iq.s as int {
                    assert(e1.is_live(j) == d0r.is_live(j));
                }
            }
            assert(e1.is_live(iq.p as int));
        }
        self.terms.dec_ref(iq.p);
        let ghost e2 = self.terms;
        proof {
            assert forall|j: int| d0r.is_live(j) implies ({
                let rem = occ_in_quads(qs2, j) + occ_in_quad(iq, j) - (if iq.s as int == j {
                    1int
                } else {
                    0int
                }) - (if iq.p as int == j {
                    1int
                } else {
                    0int
                });
                &&& (rem >= 1 ==> e2.is_live(j) && e2.rc_at(j) as int == rem && e2.term_at(j)
                    == d0r.term_at(j))
                &&& (rem == 0 ==> !e2.is_live(j))
            }) by {
                if j != iq.p as int {
                    assert(e2.is_live(j) == e1.is_live(j));
                }
            }
            assert(e2.is_live(iq.o as int));
        }
        self.terms.dec_ref(iq.o);
        let ghost e3 = self.terms;
        proof {
            assert forall|j: int| d0r.is_live(j) implies ({
                let rem = occ_in_quads(qs2, j) + occ_in_quad(iq, j) - (if iq.s as int == j {
                    1int
                } else {
                    0int
                }) - (if iq.p as int == j {
                    1int
                } else {
                    0int
                }) - (if iq.o as int == j {
                    1int
                } else {
                    0int
                });
                &&& (rem >= 1 ==> e3.is_live(j) && e3.rc_at(j) as int == rem && e3.term_at(j)
                    == d0r.term_at(j))
                &&& (rem == 0 ==> !e3.is_live(j))
            }) by {
                if j != iq.o as int {
                    assert(e3.is_live(j) == e2.is_live(j));
                }
            }
            match iq.g {
                Some(gx) => {
                    assert(e3.is_live(gx as int));
                },
                None => {},
            }
        }
        match iq.g {
            Some(gx) => {
                self.terms.dec_ref(gx);
            },
            None => {},
        }
        let ghost e4 = self.terms;
        proof {
            assert forall|j: int| d0r.is_live(j) implies ({
                let rem = occ_in_quads(qs2, j);
                &&& (rem >= 1 ==> e4.is_live(j) && e4.rc_at(j) as int == rem && e4.term_at(j)
                    == d0r.term_at(j))
                &&& (rem == 0 ==> !e4.is_live(j))
            }) by {
                match iq.g {
                    Some(gx) => {
                        if j != gx as int {
                            assert(e4.is_live(j) == e3.is_live(j));
                        }
                    },
                    None => {},
                }
            }
            assert forall|j: int| e4.is_live(j) implies d0r.is_live(j) by {}
            assert forall|j: int| self.terms.is_live(j) implies self.terms.rc_at(j)
                == occ_in_quads(qs2, j) by {}
            assert forall|k: int| 0 <= k < qs2.len() implies self.iq_live(#[trigger] qs2[k]) by {
                assert(old(self).iq_live(qs2[k]));
                lemma_occ_at_least(qs2, k, qs2[k].s as int);
                lemma_occ_at_least(qs2, k, qs2[k].p as int);
                lemma_occ_at_least(qs2, k, qs2[k].o as int);
                match qs2[k].g {
                    Some(gk) => {
                        lemma_occ_at_least(qs2, k, gk as int);
                    },
                    None => {},
                }
            }
        }
    }

    /// An owned copy of the quad a stored handle tuple stands for.
    fn resolve_exec(&self, iq: &IndexedQuad) -> (r: Quad)
        requires
            self.inv(),
            self.iq_live(*iq),
        ensures
            r@ == self.resolve(*iq),
    {
        let s = match self.terms.get_term(iq.s) {
            Some(t) => t.duplicate(),
            None => unreached(),
        };
        let p = match self.terms.get_term(iq.p) {
            Some(t) => t.duplicate(),
            None => unreached(),
        };
        let o = match self.terms.get_term(iq.o) {
            Some(t) => t.duplicate(),
            None => unreached(),
        };
        let g: GraphName = match iq.g {
            Some(gx) => match self.terms.get_term(gx) {
                Some(t) => Some(t.duplicate()),
                None => unreached(),
            },
            None => None,
        };
        Quad { s, p, o, g }
    }

    /// The single scan primitive behind every per-position scan: walks the
    /// container once and keeps the quads whose bound positions (the
    /// `Some` constants) hold exactly the given values.
    #[verifier::loop_isolation(false)]
    fn quads_where(
        &self,
        cs: Option<&Term>,
        cp: Option<&Term>,
        co: Option<&Term>,
        cg: Option<Option<&Term>>,
    ) -> (r: Vec<Quad>)
        requires
            self.inv(),
        ensures
            quad_views(r@) == self@.filter(
                |q: QuadV|
                    bound_match(
                        q,
                        graph_name_ref_view(cs),
                        graph_name_ref_view(cp),
                        graph_name_ref_view(co),
                        constant_graph_view(cg),
                    ),
            ),
    {
        let ghost pred = |q: QuadV|
            bound_match(
                q,
                graph_name_ref_view(cs),
                graph_name_ref_view(cp),
                graph_name_ref_view(co),
                constant_graph_view(cg),
            );
        let mut out: Vec<Quad> = Vec::new();
        let n = self.quads.len();
        let mut k: usize = 0;
        proof {
            assert(quad_views(out@) =~= self@.take(0).filter(pred));
        }
        while k < n
            invariant
                quad_views(out@) == self@.take(k as int).filter(pred),
                0 <= k <= n,
            decreases n - k,
        {
            proof {
                assert(self.iq_live(self.quads@[k as int]));
            }
            let q = self.resolve_exec(&self.quads[k]);
            let keep_s = match cs {
                Some(t) => q.s().eq_term(t),
                None => true,
            };
            let keep_p = match cp {
                Some(t) => q.p().eq_term(t),
                None => true,
            };
            let keep_o = match co {
                Some(t) => q.o().eq_term(t),
                None => true,
            };
            let keep_g = match cg {
                Some(gn) => same_graph_name(q.g(), gn),
                None => true,
            };
            proof {
                assert(self@.take(k + 1) =~= self@.take(k as int).push(self@[k as int]));
                broadcast use vstd::prelude::Seq::lemma_filter_push;

                assert(q@ == self@[k as int]);
                assert((keep_s && keep_p && keep_o && keep_g) == pred(self@[k as int]));
            }
            if keep_s && keep_p && keep_o && keep_g {
                let ghost old_out = out@;
                out.push(q);
                proof {
                    assert(quad_views(out@) =~= quad_views(old_out).push(self@[k as int]));
                }
            }
            k = k + 1;
        }
        proof {
            assert(self@.take(n as int) =~= self@);
        }
        out
    }

    /// All quads of the store, in container order.
    pub fn quads(&self) -> (r: Vec<Quad>)
        requires
            self.inv(),
        ensures
            quad_views(r@) == self@,
    {
        let r = self.quads_where(None, None, None, None);
        proof {
            lemma_filter_all(
                self@,
                |q: QuadV| bound_match(q, None, None, None, None),
            );
        }
        r
    }

    /// The quads with the given subject.
    pub fn quads_with_s(&self, s: &Term) -> (r: Vec<Quad>)
        requires
            self.inv(),
        ensures
            quad_views(r@) == self@.filter(|q: QuadV| q.s == s@),
    {
        let r = self.quads_where(Some(s), None, None, None);
        proof {
            lemma_filter_congruent(
                self@,
                |q: QuadV| bound_match(q, Some(s@), None, None, None),
                |q: QuadV| q.s == s@,
            );
        }
        r
    }

    /// The quads with the given predicate.
    pub fn quads_with_p(&self, p: &Term) -> (r: Vec<Quad>)
        requires
            self.inv(),
        ensures
            quad_views(r@) == self@.filter(|q: QuadV| q.p == p@),
    {
        let r = self.quads_where(None, Some(p), None, None);
        proof {
            lemma_filter_congruent(
                self@,
                |q: QuadV| bound_match(q, None, Some(p@), None, None),
                |q: QuadV| q.p == p@,
            );
        }
        r
    }

    /// The quads with the given object.
    pub fn quads_with_o(&self, o: &Term) -> (r: Vec<Quad>)
        requires
            self.inv(),
        ensures
            quad_views(r@) == self@.filter(|q: QuadV| q.o == o@),
    {
        let r = self.quads_where(None, None, Some(o), None);
        proof {
            lemma_filter_congruent(
                self@,
                |q: QuadV| bound_match(q, None, None, Some(o@), None),
                |q: QuadV| q.o == o@,
            );
        }
        r
    }

    /// The quads with the given graph name.
    pub fn quads_with_g(&self, g: Option<&Term>) -> (r: Vec<Quad>)
        requires
            self.inv(),
        ensures
            quad_views(r@) == self@.filter(|q: QuadV| q.g == graph_name_ref_view(g)),
    {
        let r = self.quads_where(None, None, None, Some(g));
        proof {
            lemma_filter_congruent(
                self@,
                |q: QuadV| bound_match(q, None, None, None, Some(graph_name_ref_view(g))),
                |q: QuadV| q.g == graph_name_ref_view(g),
            );
        }
        r
    }

    /// The quads with the given subject and predicate.
    pub fn quads_with_sp(&self, s: &Term, p: &Term) -> (r: Vec<Quad>)
        requires
            self.inv(),
        ensures
            quad_views(r@) == self@.filter(|q: QuadV| q.s == s@ && q.p == p@),
    {
        let r = self.quads_where(Some(s), Some(p), None, None);
        proof {
            lemma_filter_congruent(
                self@,
                |q: QuadV| bound_match(q, Some(s@), Some(p@), None, None),
                |q: QuadV| q.s == s@ && q.p == p@,
            );
        }
        r
    }

    /// The quads with the given subject and object.
    pub fn quads_with_so(&self, s: &Term, o: &Term) -> (r: Vec<Quad>)
        requires
            self.inv(),
        ensures
            quad_views(r@) == self@.filter(|q: QuadV| q.s == s@ && q.o == o@),
    {
        let r = self.quads_where(Some(s), None, Some(o), None);
        proof {
            lemma_filter_congruent(
                self@,
                |q: QuadV| bound_match(q, Some(s@), None, Some(o@), None),
                |q: QuadV| q.s == s@ && q.o == o@,
            );
        }
        r
    }

    /// The quads with the given subject and graph name.
    pub fn quads_with_sg(&self, s: &Term, g: Option<&Term>) -> (r: Vec<Quad>)
        requires
            self.inv(),
        ensures
            quad_views(r@) == self@.filter(
                |q: QuadV| q.s == s@ && q.g == graph_name_ref_view(g),
            ),
    {
        let r = self.quads_where(Some(s), None, None, Some(g));
        proof {
            lemma_filter_congruent(
                self@,
                |q: QuadV| bound_match(q, Some(s@), None, None, Some(graph_name_ref_view(g))),
                |q: QuadV| q.s == s@ && q.g == graph_name_ref_view(g),
            );
        }
        r
    }

    /// The quads with the given predicate and object.
    pub fn quads_with_po(&self, p: &Term, o: &Term) -> (r: Vec<Quad>)
        requires
            self.inv(),
        ensures
            quad_views(r@) == self@.filter(|q: QuadV| q.p == p@ && q.o == o@),
    {
        let r = self.quads_where(None, Some(p), Some(o), None);
        proof {
            lemma_filter_congruent(
                self@,
                |q: QuadV| bound_match(q, None, Some(p@), Some(o@), None),
                |q: QuadV| q.p == p@ && q.o == o@,
            );
        }
        r
    }

    /// The quads with the given predicate and graph name.
    pub fn quads_with_pg(&self, p: &Term, g: Option<&Term>) -> (r: Vec<Quad>)
        requires
            self.inv(),
        ensures
            quad_views(r@) == self@.filter(
                |q: QuadV| q.p == p@ && q.g == graph_name_ref_view(g),
            ),
    {
        let r = self.quads_where(None, Some(p), None, Some(g));
        proof {
            lemma_filter_congruent(
                self@,
                |q: QuadV| bound_match(q, None, Some(p@), None, Some(graph_name_ref_view(g))),
                |q: QuadV| q.p == p@ && q.g == graph_name_ref_view(g),
            );
        }
        r
    }

    /// The quads with the given object and graph name.
    pub fn quads_with_og(&self, o: &Term, g: Option<&Term>) -> (r: Vec<Quad>)
        requires
            self.inv(),
        ensures
            quad_views(r@) == self@.filter(
                |q: QuadV| q.o == o@ && q.g == graph_name_ref_view(g),
            ),
    {
        let r = self.quads_where(None, None, Some(o), Some(g));
        proof {
            lemma_filter_congruent(
                self@,
                |q: QuadV| bound_match(q, None, None, Some(o@), Some(graph_name_ref_view(g))),
                |q: QuadV| q.o == o@ && q.g == graph_name_ref_view(g),
            );
        }
        r
    }

    /// The quads with the given subject, predicate and object.
    pub fn quads_with_spo(&self, s: &Term, p: &Term, o: &Term) -> (r: Vec<Quad>)
        requires
            self.inv(),
        ensures
            quad_views(r@) == self@.filter(|q: QuadV| q.s == s@ && q.p == p@ && q.o == o@),
    {
        let r = self.quads_where(Some(s), Some(p), Some(o), None);
        proof {
            lemma_filter_congruent(
                self@,
                |q: QuadV| bound_match(q, Some(s@), Some(p@), Some(o@), None),
                |q: QuadV| q.s == s@ && q.p == p@ && q.o == o@,
            );
        }
        r
    }

    /// The quads with the given subject, predicate and graph name.
    pub fn quads_with_spg(&self, s: &Term, p: &Term, g: Option<&Term>) -> (r: Vec<Quad>)
        requires
            self.inv(),
        ensures
            quad_views(r@) == self@.filter(
                |q: QuadV| q.s == s@ && q.p == p@ && q.g == graph_name_ref_view(g),
            ),
    {
        let r = self.quads_where(Some(s), Some(p), None, Some(g));
        proof {
            lemma_filter_congruent(
                self@,
                |q: QuadV|
                    bound_match(q, Some(s@), Some(p@), None, Some(graph_name_ref_view(g))),
                |q: QuadV| q.s == s@ && q.p == p@ && q.g == graph_name_ref_view(g),
            );
        }
        r
    }

    /// The quads with the given subject, object and graph name.
    pub fn quads_with_sog(&self, s: &Term, o: &Term, g: Option<&Term>) -> (r: Vec<Quad>)
        requires
            self.inv(),
        ensures
            quad_views(r@) == self@.filter(
                |q: QuadV| q.s == s@ && q.o == o@ && q.g == graph_name_ref_view(g),
            ),
    {
        let r = self.quads_where(Some(s), None, Some(o), Some(g));
        proof {
            lemma_filter_congruent(
                self@,
                |q: QuadV|
                    bound_match(q, Some(s@), None, Some(o@), Some(graph_name_ref_view(g))),
                |q: QuadV| q.s == s@ && q.o == o@ && q.g == graph_name_ref_view(g),
            );
        }
        r
    }

    /// The quads with the given predicate, object and graph name.
    pub fn quads_with_pog(&self, p: &Term, o: &Term, g: Option<&Term>) -> (r: Vec<Quad>)
        requires
            self.inv(),
        ensures
            quad_views(r@) == self@.filter(
                |q: QuadV| q.p == p@ && q.o == o@ && q.g == graph_name_ref_view(g),
            ),
    {
        let r = self.quads_where(None, Some(p), Some(o), Some(g));
        proof {
            lemma_filter_congruent(
                self@,
                |q: QuadV|
                    bound_match(q, None, Some(p@), Some(o@), Some(graph_name_ref_view(g))),
                |q: QuadV| q.p == p@ && q.o == o@ && q.g == graph_name_ref_view(g),
            );
        }
        r
    }

    /// The quads with the given subject, predicate, object and graph name.
    pub fn quads_with_spog(&self, s: &Term, p: &Term, o: &Term, g: Option<&Term>) -> (r: Vec<
        Quad,
    >)
        requires
            self.inv(),
        ensures
            quad_views(r@) == self@.filter(
                |q: QuadV| q.s == s@ && q.p == p@ && q.o == o@ && q.g == graph_name_ref_view(g),
            ),
    {
        let r = self.quads_where(Some(s), Some(p), Some(o), Some(g));
        proof {
            lemma_filter_congruent(
                self@,
                |q: QuadV|
                    bound_match(q, Some(s@), Some(p@), Some(o@), Some(graph_name_ref_view(g))),
                |q: QuadV| q.s == s@ && q.p == p@ && q.o == o@ && q.g == graph_name_ref_view(g),
            );
        }
        r
    }

    /// Answers a pattern query: inspects which positions reduce to a
    /// constant, runs the scan primitive with exactly those positions
    /// bound, and filters the result by the remaining matchers. The
    /// result set always equals filtering a full scan by all four
    /// matchers.
    pub fn quads_matching(
        &self,
        ms: &TermMatcher,
        mp: &TermMatcher,
        mo: &TermMatcher,
        mg: &GraphNameMatcher,
    ) -> (r: Vec<Quad>)
        requires
            self.inv(),
        ensures
            quad_views(r@) == self@.filter(|q: QuadV| matchers_match(q, ms, mp, mo, mg)),
    {
        let cs = ms.constant();
        let cp = mp.constant();
        let co = mo.constant();
        let cgc = mg.constant();
        let cg: Option<Option<&Term>> = match cgc {
            Some(gn) => Some(gn.as_ref()),
            None => None,
        };
        let base = self.quads_where(cs, cp, co, cg);
        let r = filter_by_matchers(base, ms, mp, mo, mg);
        proof {
            let bound = |q: QuadV|
                bound_match(
                    q,
                    graph_name_ref_view(cs),
                    graph_name_ref_view(cp),
                    graph_name_ref_view(co),
                    constant_graph_view(cg),
                );
            let all = |q: QuadV| matchers_match(q, ms, mp, mo, mg);
            lemma_filter_compose(self@, bound, all);
            lemma_filter_congruent(self@, |q: QuadV| bound(q) && all(q), all);
        }
        r
    }

    /// True when the store holds the given quad: the fully bound pattern
    /// yields at least one tuple.
    pub fn contains(&self, s: &Term, p: &Term, o: &Term, g: Option<&Term>) -> (r: bool)
        requires
            self.inv(),
        ensures
            r == self@.contains(quad_value(s@, p@, o@, graph_name_ref_view(g))),
    {
        let v = self.quads_with_spog(s, p, o, g);
        let r = v.len() > 0;
        proof {
            let pred = |q: QuadV|
                q.s == s@ && q.p == p@ && q.o == o@ && q.g == graph_name_ref_view(g);
            let qv = quad_value(s@, p@, o@, graph_name_ref_view(g));
            lemma_filter_empty_iff(self@, pred);
            if self@.contains(qv) {
                let k = choose|k: int| 0 <= k < self@.len() && self@[k] == qv;
                assert(pred(self@[k]));
            }
            if r {
                assert(!(forall|i: int| 0 <= i < self@.len() ==> !pred(#[trigger] self@[i])));
                let i = choose|i: int| 0 <= i < self@.len() && pred(self@[i]);
                assert(self@[i] == qv);
            }
        }
        r
    }

    /// The distinct terms used as subject, in first-appearance order.
    pub fn subjects(&self) -> (r: Vec<Term>)
        requires
            self.inv(),
        ensures
            term_views(r@).no_duplicates(),
            forall|t: TermV| #[trigger]
                term_views(r@).contains(t) <==> exists|k: int|
                    0 <= k < self@.len() && (#[trigger] self@[k]).s == t,
    {
        let all = self.quads();
        let mut res: Vec<Term> = Vec::new();
        let n = all.len();
        let mut k: usize = 0;
        while k < n
            invariant
                self.inv(),
                n == all@.len(),
                quad_views(all@) == self@,
                0 <= k <= n,
                term_views(res@).no_duplicates(),
                forall|t: TermV| #[trigger]
                    term_views(res@).contains(t) <==> exists|j: int|
                        0 <= j < k && (#[trigger] self@[j]).s == t,
            decreases n - k,
        {
            proof {
                assert(all@[k as int]@ == self@[k as int]);
            }
            let ghost pre = term_views(res@);
            insert_if_absent(&mut res, all[k].s());
            proof {
                let x = self@[k as int].s;
                crate::seq_lemmas::lemma_set_insert(pre, term_views(res@), x);
                assert forall|t: TermV| #[trigger] term_views(res@).contains(t) implies exists|j: int|
                    0 <= j < k + 1 && (#[trigger] self@[j]).s == t by {
                    if pre.contains(t) {
                        let j0 = choose|j: int| 0 <= j < k && (#[trigger] self@[j]).s == t;
                        assert(0 <= j0 < k + 1 && self@[j0].s == t);
                    } else {
                        assert(self@[k as int].s == t);
                    }
                }
                assert forall|t: TermV|
                    (exists|j: int| 0 <= j < k + 1 && (#[trigger] self@[j]).s == t) implies #[trigger] term_views(
                    res@,
                ).contains(t) by {
                    let j0 = choose|j: int| 0 <= j < k + 1 && (#[trigger] self@[j]).s == t;
                    if j0 < k {
                        assert(pre.contains(t));
                    }
                }
            }
            k = k + 1;
        }
        res
    }

    /// The distinct terms used as predicate, in first-appearance order.
    pub fn predicates(&self) -> (r: Vec<Term>)
        requires
            self.inv(),
        ensures
            term_views(r@).no_duplicates(),
            forall|t: TermV| #[trigger]
                term_views(r@).contains(t) <==> exists|k: int|
                    0 <= k < self@.len() && (#[trigger] self@[k]).p == t,
    {
        let all = self.quads();
        let mut res: Vec<Term> = Vec::new();
        let n = all.len();
        let mut k: usize = 0;
        while k < n
            invariant
                self.inv(),
                n == all@.len(),
                quad_views(all@) == self@,
                0 <= k <= n,
                term_views(res@).no_duplicates(),
                forall|t: TermV| #[trigger]
                    term_views(res@).contains(t) <==> exists|j: int|
                        0 <= j < k && (#[trigger] self@[j]).p == t,
            decreases n - k,
        {
            proof {
                assert(all@[k as int]@ == self@[k as int]);
            }
            let ghost pre = term_views(res@);
            insert_if_absent(&mut res, all[k].p());
            proof {
                let x = self@[k as int].p;
                crate::seq_lemmas::lemma_set_insert(pre, term_views(res@), x);
                assert forall|t: TermV| #[trigger] term_views(res@).contains(t) implies exists|j: int|
                    0 <= j < k + 1 && (#[trigger] self@[j]).p == t by {
                    if pre.contains(t) {
                        let j0 = choose|j: int| 0 <= j < k && (#[trigger] self@[j]).p == t;
                        assert(0 <= j0 < k + 1 && self@[j0].p == t);
                    } else {
                        assert(self@[k as int].p == t);
                    }
                }
                assert forall|t: TermV|
                    (exists|j: int| 0 <= j < k + 1 && (#[trigger] self@[j]).p == t) implies #[trigger] term_views(
                    res@,
                ).contains(t) by {
                    let j0 = choose|j: int| 0 <= j < k + 1 && (#[trigger] self@[j]).p == t;
                    if j0 < k {
                        assert(pre.contains(t));
                    }
                }
            }
            k = k + 1;
        }
        res
    }

    /// The distinct terms used as object, in first-appearance order.
    pub fn objects(&self) -> (r: Vec<Term>)
        requires
            self.inv(),
        ensures
            term_views(r@).no_duplicates(),
            forall|t: TermV| #[trigger]
                term_views(r@).contains(t) <==> exists|k: int|
                    0 <= k < self@.len() && (#[trigger] self@[k]).o == t,
    {
        let all = self.quads();
        let mut res: Vec<Term> = Vec::new();
        let n = all.len();
        let mut k: usize = 0;
        while k < n
            invariant
                self.inv(),
                n == all@.len(),
                quad_views(all@) == self@,
                0 <= k <= n,
                term_views(res@).no_duplicates(),
                forall|t: TermV| #[trigger]
                    term_views(res@).contains(t) <==> exists|j: int|
                        0 <= j < k && (#[trigger] self@[j]).o == t,
            decreases n - k,
        {
            proof {
                assert(all@[k as int]@ == self@[k as int]);
            }
            let ghost pre = term_views(res@);
            insert_if_absent(&mut res, all[k].o());
            proof {
                let x = self@[k as int].o;
                crate::seq_lemmas::lemma_set_insert(pre, term_views(res@), x);
                assert forall|t: TermV| #[trigger] term_views(res@).contains(t) implies exists|j: int|
                    0 <= j < k + 1 && (#[trigger] self@[j]).o == t by {
                    if pre.contains(t) {
                        let j0 = choose|j: int| 0 <= j < k && (#[trigger] self@[j]).o == t;
                        assert(0 <= j0 < k + 1 && self@[j0].o == t);
                    } else {
                        assert(self@[k as int].o == t);
                    }
                }
                assert forall|t: TermV|
                    (exists|j: int| 0 <= j < k + 1 && (#[trigger] self@[j]).o == t) implies #[trigger] term_views(
                    res@,
                ).contains(t) by {
                    let j0 = choose|j: int| 0 <= j < k + 1 && (#[trigger] self@[j]).o == t;
                    if j0 < k {
                        assert(pre.contains(t));
                    }
                }
            }
            k = k + 1;
        }
        res
    }

    /// The distinct terms naming a graph, in first-appearance order; the
    /// default graph contributes nothing.
    pub fn graph_names(&self) -> (r: Vec<Term>)
        requires
            self.inv(),
        ensures
            term_views(r@).no_duplicates(),
            forall|t: TermV| #[trigger]
                term_views(r@).contains(t) <==> exists|k: int|
                    0 <= k < self@.len() && (#[trigger] self@[k]).g == Some(t),
    {
        let all = self.quads();
        let mut res: Vec<Term> = Vec::new();
        let n = all.len();
        let mut k: usize = 0;
        while k < n
            invariant
                self.inv(),
                n == all@.len(),
                quad_views(all@) == self@,
                0 <= k <= n,
                term_views(res@).no_duplicates(),
                forall|t: TermV| #[trigger]
                    term_views(res@).contains(t) <==> exists|j: int|
                        0 <= j < k && (#[trigger] self@[j]).g == Some(t),
            decreases n - k,
        {
            proof {
                assert(all@[k as int]@ == self@[k as int]);
            }
            let ghost pre = term_views(res@);
            match all[k].g() {
                Some(name) => {
                    insert_if_absent(&mut res, name);
                    proof {
                        let x = name@;
                        assert(self@[k as int].g == Some(x));
                        crate::seq_lemmas::lemma_set_insert(pre, term_views(res@), x);
                    }
                },
                None => {
                    proof {
                        assert(self@[k as int].g is None);
                    }
                },
            }
            proof {
                assert forall|t: TermV| #[trigger] term_views(res@).contains(t) implies exists|j: int|
                    0 <= j < k + 1 && (#[trigger] self@[j]).g == Some(t) by {
                    if pre.contains(t) {
                        let j0 = choose|j: int| 0 <= j < k && (#[trigger] self@[j]).g == Some(t);
                        assert(0 <= j0 < k + 1 && self@[j0].g == Some(t));
                    } else {
                        assert(self@[k as int].g == Some(t));
                    }
                }
                assert forall|t: TermV|
                    (exists|j: int| 0 <= j < k + 1 && (#[trigger] self@[j]).g == Some(t)) implies #[trigger] term_views(
                    res@,
                ).contains(t) by {
                    let j0 = choose|j: int| 0 <= j < k + 1 && (#[trigger] self@[j]).g == Some(t);
                    if j0 < k {
                        assert(pre.contains(t));
                    }
                }
            }
            k = k + 1;
        }
        res
    }

    /// The distinct terms of the selected kind used anywhere in the
    /// store, the graph position counting only when it names a graph.
    fn collect_kind(&self, kind: KindSel) -> (r: Vec<Term>)
        requires
            self.inv(),
        ensures
            term_views(r@).no_duplicates(),
            forall|t: TermV| #[trigger]
                term_views(r@).contains(t) <==> (kind_matches(t, kind) && exists|k: int|
                    0 <= k < self@.len() && appears_in(#[trigger] self@[k], t)),
    {
        let all = self.quads();
        let mut res: Vec<Term> = Vec::new();
        let n = all.len();
        let mut k: usize = 0;
        while k < n
            invariant
                self.inv(),
                n == all@.len(),
                quad_views(all@) == self@,
                0 <= k <= n,
                term_views(res@).no_duplicates(),
                forall|t: TermV| #[trigger]
                    term_views(res@).contains(t) <==> (kind_matches(t, kind) && exists|j: int|
                        0 <= j < k && appears_in(#[trigger] self@[j], t)),
            decreases n - k,
        {
            proof {
                assert(all@[k as int]@ == self@[k as int]);
            }
            let ghost pre = term_views(res@);
            let ghost qk = self@[k as int];
            add_if_kind(&mut res, all[k].s(), kind);
            let ghost pre1 = term_views(res@);
            add_if_kind(&mut res, all[k].p(), kind);
            let ghost pre2 = term_views(res@);
            add_if_kind(&mut res, all[k].o(), kind);
            let ghost pre3 = term_views(res@);
            match all[k].g() {
                Some(name) => {
                    add_if_kind(&mut res, name, kind);
                    proof {
                        assert(qk.g == Some(name@));
                    }
                },
                None => {
                    proof {
                        assert(qk.g is None);
                    }
                },
            }
            proof {
                assert forall|t: TermV| #[trigger] term_views(res@).contains(t) implies (
                kind_matches(t, kind) && exists|j: int|
                    0 <= j < k + 1 && appears_in(#[trigger] self@[j], t)) by {
                    if pre.contains(t) {
                        let j0 = choose|j: int|
                            0 <= j < k && appears_in(#[trigger] self@[j], t);
                        assert(0 <= j0 < k + 1 && appears_in(self@[j0], t));
                    } else {
                        if pre1.contains(t) {
                            assert(t == qk.s);
                        } else if pre2.contains(t) {
                            assert(t == qk.p);
                        } else if pre3.contains(t) {
                            assert(t == qk.o);
                        } else {
                            assert(qk.g == Some(t));
                        }
                        assert(appears_in(qk, t));
                    }
                }
                assert forall|t: TermV|
                    (kind_matches(t, kind) && exists|j: int|
                        0 <= j < k + 1 && appears_in(#[trigger] self@[j], t)) implies #[trigger] term_views(
                    res@,
                ).contains(t) by {
                    let j0 = choose|j: int| 0 <= j < k + 1 && appears_in(#[trigger] self@[j], t);
                    if j0 < k {
                        assert(pre.contains(t));
                        assert(pre1.contains(t) && pre2.contains(t) && pre3.contains(t));
                    } else {
                        assert(appears_in(qk, t));
                        if t == qk.s {
                            assert(pre1.contains(t));
                        } else if t == qk.p {
                            assert(pre2.contains(t));
                        } else if t == qk.o {
                            assert(pre3.contains(t));
                        }
                    }
                }
            }
            k = k + 1;
        }
        res
    }

    /// The distinct IRI terms used anywhere in the store.
    pub fn iris(&self) -> (r: Vec<Term>)
        requires
            self.inv(),
        ensures
            term_views(r@).no_duplicates(),
            forall|t: TermV| #[trigger]
                term_views(r@).contains(t) <==> (t is Iri && exists|k: int|
                    0 <= k < self@.len() && appears_in(#[trigger] self@[k], t)),
    {
        self.collect_kind(KindSel::Iri)
    }

    /// The distinct blank-node terms used anywhere in the store.
    pub fn bnodes(&self) -> (r: Vec<Term>)
        requires
            self.inv(),
        ensures
            term_views(r@).no_duplicates(),
            forall|t: TermV| #[trigger]
                term_views(r@).contains(t) <==> (t is BNode && exists|k: int|
                    0 <= k < self@.len() && appears_in(#[trigger] self@[k], t)),
    {
        self.collect_kind(KindSel::BNode)
    }

    /// The distinct literal terms used anywhere in the store.
    pub fn literals(&self) -> (r: Vec<Term>)
        requires
            self.inv(),
        ensures
            term_views(r@).no_duplicates(),
            forall|t: TermV| #[trigger]
                term_views(r@).contains(t) <==> (t is Literal && exists|k: int|
                    0 <= k < self@.len() && appears_in(#[trigger] self@[k], t)),
    {
        self.collect_kind(KindSel::Literal)
    }

    /// The distinct variable terms used anywhere in the store.
    pub fn variables(&self) -> (r: Vec<Term>)
        requires
            self.inv(),
        ensures
            term_views(r@).no_duplicates(),
            forall|t: TermV| #[trigger]
                term_views(r@).contains(t) <==> (t is Variable && exists|k: int|
                    0 <= k < self@.len() && appears_in(#[trigger] self@[k], t)),
    {
        self.collect_kind(KindSel::Variable)
    }

    /// Removes every quad of `to_remove`, which must be exactly the
    /// quads of the store satisfying `pred`, in store order; the
    /// collect-then-mutate discipline behind the matching mutations.
    #[verifier::loop_isolation(false)]
    fn remove_all_listed(
        &mut self,
        to_remove: &Vec<Quad>,
        Ghost(pred): Ghost<spec_fn(QuadV) -> bool>,
    ) -> (r: usize)
        requires
            old(self).inv(),
            quad_views(to_remove@) == old(self)@.filter(pred),
        ensures
            final(self).inv(),
            final(self)@ == old(self)@.filter(|q: QuadV| !pred(q)),
            r == old(self)@.filter(pred).len(),
            final(self).term_slots() == old(self).term_slots(),
    {
        proof {
            self.lemma_view_no_duplicates();
            crate::seq_lemmas::lemma_filter_preserves_no_duplicates(old(self)@, pred);
            broadcast use vstd::prelude::Seq::lemma_filter_len;

        }
        let ghost tv = quad_views(to_remove@);
        let n = to_remove.len();
        let mut c: usize = 0;
        let mut i: usize = 0;
        proof {
            assert(self@ =~= old(self)@.filter(
                |q: QuadV| !(pred(q) && tv.take(0).contains(q)),
            )) by {
                lemma_filter_all(old(self)@, |q: QuadV| !(pred(q) && tv.take(0).contains(q)));
            }
        }
        while i < n
            invariant
                self.inv(),
                n == to_remove@.len(),
                tv == quad_views(to_remove@),
                0 <= i <= n,
                c == i,
                self@ == old(self)@.filter(
                    |q: QuadV| !(pred(q) && tv.take(i as int).contains(q)),
                ),
                self.term_slots() == old(self).term_slots(),
            decreases n - i,
        {
            let ghost pi = |q: QuadV| !(pred(q) && tv.take(i as int).contains(q));
            let ghost qv = tv[i as int];
            proof {
                old(self)@.lemma_filter_pred(pred, i as int);
                assert(pred(qv));
                assert(!tv.take(i as int).contains(qv)) by {
                    if tv.take(i as int).contains(qv) {
                        let j = choose|j: int| 0 <= j < i && tv.take(i as int)[j] == qv;
                        assert(tv[j] == qv && tv[i as int] == qv);
                    }
                }
                assert(old(self)@.contains(qv)) by {
                    old(self)@.lemma_filter_contains_rev(pred, qv);
                }
                let k0 = choose|k: int| 0 <= k < old(self)@.len() && old(self)@[k] == qv;
                assert(pi(old(self)@[k0]));
                old(self)@.lemma_filter_contains(pi, k0);
                assert(self@.contains(qv));
            }
            let q = &to_remove[i];
            proof {
                assert(q@ == qv);
            }
            let ghost cur = self@;
            let ghost iprev = i as int;
            let changed = self.remove_quad(q.s(), q.p(), q.o(), q.g());
            if changed {
                c = c + 1;
            }
            i = i + 1;
            proof {
                assert(quad_value(q@.s, q@.p, q@.o, q@.g) == qv);
                assert(changed);
                assert forall|x: QuadV| #[trigger]
                    tv.take(i as int).contains(x) == (tv.take(iprev).contains(x) || x
                        == qv) by {
                    assert(tv.take(i as int) =~= tv.take(iprev).push(qv));
                    if tv.take(i as int).contains(x) {
                        let j = choose|j: int|
                            0 <= j < tv.take(i as int).len() && #[trigger] tv.take(i as int)[j]
                                == x;
                        if j < iprev {
                            assert(tv.take(iprev)[j] == x);
                        } else {
                            assert(x == qv);
                        }
                    }
                    if tv.take(iprev).contains(x) {
                        let j = choose|j: int| 0 <= j < iprev && #[trigger] tv.take(iprev)[j] == x;
                        assert(tv.take(i as int)[j] == x);
                    }
                    if x == qv {
                        assert(tv.take(i as int)[iprev] == x);
                    }
                }
                let exq = |x: QuadV| x != qv;
                assert(self@ == spec_remove(cur, qv));
                assert(self@ == cur.filter(exq));
                let pnext = |q: QuadV| !(pred(q) && tv.take(i as int).contains(q));
                assert forall|x: QuadV| #[trigger] old(self)@.contains(x) implies pnext(x) == (
                pi(x) && x != qv) by {}
                crate::seq_lemmas::lemma_filter_minus_one(old(self)@, pi, pnext, exq, qv);
                assert(self@ == old(self)@.filter(pnext));
            }
        }
        proof {
            assert(tv.take(n as int) =~= tv);
            lemma_filter_congruent(
                old(self)@,
                |q: QuadV| !(pred(q) && tv.contains(q)),
                |q: QuadV| !pred(q),
            );
            assert forall|x: QuadV|
                old(self)@.contains(x) implies (!(pred(x) && tv.contains(x))) == (!pred(
                x,
            )) by {
                if pred(x) {
                    let k = choose|k: int| 0 <= k < old(self)@.len() && old(self)@[k] == x;
                    old(self)@.lemma_filter_contains(pred, k);
                }
            }
            assert(self@ == old(self)@.filter(
                |q: QuadV| !(pred(q) && tv.take(n as int).contains(q)),
            ));
            assert(self@ == old(self)@.filter(|q: QuadV| !(pred(q) && tv.contains(q)))) by {
                lemma_filter_congruent(
                    old(self)@,
                    |q: QuadV| !(pred(q) && tv.take(n as int).contains(q)),
                    |q: QuadV| !(pred(q) && tv.contains(q)),
                );
            }
        }
        c
    }

    /// Removes all quads matching the given matchers, by first collecting
    /// the matches into an owned snapshot and then removing them; returns
    /// how many quads were removed.
    pub fn remove_matching(
        &mut self,
        ms: &TermMatcher,
        mp: &TermMatcher,
        mo: &TermMatcher,
        mg: &GraphNameMatcher,
    ) -> (r: usize)
        requires
            old(self).inv(),
        ensures
            final(self).inv(),
            final(self)@ == old(self)@.filter(|q: QuadV| !matchers_match(q, ms, mp, mo, mg)),
            r == old(self)@.filter(|q: QuadV| matchers_match(q, ms, mp, mo, mg)).len(),
            final(self).term_slots() == old(self).term_slots(),
    {
        let to_remove = self.quads_matching(ms, mp, mo, mg);
        let ghost pred = |q: QuadV| matchers_match(q, ms, mp, mo, mg);
        let r = self.remove_all_listed(&to_remove, Ghost(pred));
        proof {
            lemma_filter_congruent(
                old(self)@,
                |q: QuadV| !pred(q),
                |q: QuadV| !matchers_match(q, ms, mp, mo, mg),
            );
        }
        r
    }

    /// Keeps only the quads matching the given matchers, removing all
    /// others through the same collect-then-mutate pass.
    pub fn retain_matching(
        &mut self,
        ms: &TermMatcher,
        mp: &TermMatcher,
        mo: &TermMatcher,
        mg: &GraphNameMatcher,
    )
        requires
            old(self).inv(),
        ensures
            final(self).inv(),
            final(self)@ == old(self)@.filter(|q: QuadV| matchers_match(q, ms, mp, mo, mg)),
            final(self).term_slots() == old(self).term_slots(),
    {
        let all = self.quads();
        let to_remove = filter_not_matching(all, ms, mp, mo, mg);
        let ghost pred = |q: QuadV| !matchers_match(q, ms, mp, mo, mg);
        let _ = self.remove_all_listed(&to_remove, Ghost(pred));
        proof {
            lemma_filter_congruent(
                old(self)@,
                |q: QuadV| !pred(q),
                |q: QuadV| matchers_match(q, ms, mp, mo, mg),
            );
        }
    }

    /// Inserts every quad of the source, stopping at the first source
    /// condition; returns how many insertions actually changed the
    /// store. The quads received before a source condition stay
    /// inserted.
    #[verifier::loop_isolation(false)]
    pub fn insert_all<QS: QuadSource>(&mut self, src: QS) -> (r: StreamResult<
        usize,
        QS::Error,
        NeverError,
    >)
        requires
            old(self).inv(),
            src.src_inv(),
            old(self)@.len() + src.pending().len() <= QUAD_CAP as nat,
            old(self).term_slots() + 4 * src.pending().len() + 4 <= u32::MAX as nat,
        ensures
            final(self).inv(),
            final(self)@ == spec_insert_all(old(self)@, src.pending()),
            match r {
                Ok(n) => n == spec_insert_count(old(self)@, src.pending()) && !src.will_fail(),
                Err(e) => e is SourceError && src.will_fail(),
            },
    {
        let ghost pending = src.pending();
        let mut src = src;
        let mut coll = QuadCollector::new();
        let res = src.try_for_each_quad(&mut coll);
        proof {
            match res {
                Ok(()) => {
                    assert(coll.accepted() =~= pending);
                },
                Err(StreamError::SourceError(_)) => {
                    assert(coll.accepted() =~= pending);
                },
                Err(StreamError::SinkError(_)) => {
                    assert(false);
                },
            }
            assert(quad_views(coll.items@) == pending);
        }
        let n = coll.items.len();
        let mut c: usize = 0;
        let mut i: usize = 0;
        proof {
            assert(pending.take(0) =~= Seq::<QuadV>::empty());
        }
        while i < n
            invariant
                self.inv(),
                n == coll.items@.len(),
                quad_views(coll.items@) == pending,
                0 <= i <= n,
                c <= i,
                self@ == spec_insert_all(old(self)@, pending.take(i as int)),
                c == spec_insert_count(old(self)@, pending.take(i as int)),
                self.term_slots() <= old(self).term_slots() + 4 * i,
                self@.len() <= old(self)@.len() + i,
            decreases n - i,
        {
            let q = &coll.items[i];
            proof {
                assert(q@ == pending[i as int]);
            }
            let changed = self.insert_quad(q.s(), q.p(), q.o(), q.g());
            proof {
                assert(pending.take(i + 1) =~= pending.take(i as int).push(pending[i as int]));
                lemma_insert_all_push(old(self)@, pending.take(i as int), pending[i as int]);
            }
            if changed {
                c = c + 1;
            }
            i = i + 1;
        }
        proof {
            assert(pending.take(n as int) =~= pending);
        }
        match res {
            Ok(()) => Ok(c),
            Err(StreamError::SourceError(e)) => Err(StreamError::SourceError(e)),
            Err(StreamError::SinkError(_)) => unreached(),
        }
    }

    /// Removes every quad of the source, stopping at the first source
    /// condition; returns how many removals actually changed the store.
    /// The quads received before a source condition stay removed.
    #[verifier::loop_isolation(false)]
    pub fn remove_all<QS: QuadSource>(&mut self, src: QS) -> (r: StreamResult<
        usize,
        QS::Error,
        NeverError,
    >)
        requires
            old(self).inv(),
            src.src_inv(),
        ensures
            final(self).inv(),
            final(self)@ == spec_remove_all(old(self)@, src.pending()),
            final(self).term_slots() == old(self).term_slots(),
            match r {
                Ok(n) => n == spec_remove_count(old(self)@, src.pending()) && !src.will_fail(),
                Err(e) => e is SourceError && src.will_fail(),
            },
    {
        let ghost pending = src.pending();
        let mut src = src;
        let mut coll = QuadCollector::new();
        let res = src.try_for_each_quad(&mut coll);
        proof {
            match res {
                Ok(()) => {
                    assert(coll.accepted() =~= pending);
                },
                Err(StreamError::SourceError(_)) => {
                    assert(coll.accepted() =~= pending);
                },
                Err(StreamError::SinkError(_)) => {
                    assert(false);
                },
            }
            assert(quad_views(coll.items@) == pending);
        }
        let n = coll.items.len();
        let mut c: usize = 0;
        let mut i: usize = 0;
        proof {
            assert(pending.take(0) =~= Seq::<QuadV>::empty());
        }
        while i < n
            invariant
                self.inv(),
                n == coll.items@.len(),
                quad_views(coll.items@) == pending,
                0 <= i <= n,
                c <= i,
                self@ == spec_remove_all(old(self)@, pending.take(i as int)),
                c == spec_remove_count(old(self)@, pending.take(i as int)),
                self.term_slots() == old(self).term_slots(),
            decreases n - i,
        {
            let q = &coll.items[i];
            proof {
                assert(q@ == pending[i as int]);
            }
            let changed = self.remove_quad(q.s(), q.p(), q.o(), q.g());
            proof {
                assert(pending.take(i + 1) =~= pending.take(i as int).push(pending[i as int]));
                lemma_remove_all_push(old(self)@, pending.take(i as int), pending[i as int]);
            }
            if changed {
                c = c + 1;
            }
            i = i + 1;
        }
        proof {
            assert(pending.take(n as int) =~= pending);
        }
        match res {
            Ok(()) => Ok(c),
            Err(StreamError::SourceError(e)) => Err(StreamError::SourceError(e)),
            Err(StreamError::SinkError(_)) => unreached(),
        }
    }

    /// Builds a store from a quad source: an empty store filled through
    /// `insert_all`.
    pub fn from_quad_source<QS: QuadSource>(src: QS) -> (r: StreamResult<
        HashDataset,
        QS::Error,
        NeverError,
    >)
        requires
            src.src_inv(),
            src.pending().len() <= QUAD_CAP as nat,
        ensures
            match r {
                Ok(d) => {
                    &&& d.inv()
                    &&& d@ == spec_insert_all(Seq::<QuadV>::empty(), src.pending())
                    &&& !src.will_fail()
                },
                Err(e) => e is SourceError && src.will_fail(),
            },
    {
        let mut d = HashDataset::new();
        match d.insert_all(src) {
            Ok(_) => Ok(d),
            Err(StreamError::SourceError(e)) => Err(StreamError::SourceError(e)),
            Err(StreamError::SinkError(_)) => unreached(),
        }
    }

    /// Position of a handle tuple in the container, if stored.
    fn find_quad(&self, iq: &IndexedQuad) -> (r: Option<usize>)
        ensures
            match r {
                Some(k) => k < self.quads@.len() && self.quads@[k as int] == *iq,
                None => !self.quads@.contains(*iq),
            },
    {
        let n = self.quads.len();
        let mut k: usize = 0;
        while k < n
            invariant
                n == self.quads@.len(),
                0 <= k <= n,
                forall|j: int| 0 <= j < k ==> #[trigger] self.quads@[j] != *iq,
            decreases n - k,
        {
            if eq_indexed(&self.quads[k], iq) {
                return Some(k);
            }
            k = k + 1;
        }
        None
    }
}

/// Generic protocol of RDF datasets: read access to a collection of
/// quads.
pub trait Dataset {
    /// The error type a read operation may raise.
    type Error;

    /// The quads the dataset holds, in iteration order.
    spec fn dataset_view(&self) -> Seq<QuadV>;

    /// The structural invariant of the implementation.
    spec fn dataset_inv(&self) -> bool;

    /// All quads of the dataset.
    fn quads(&self) -> (r: Result<Vec<Quad>, Self::Error>)
        requires
            self.dataset_inv(),
        ensures
            r is Ok ==> quad_views(r->Ok_0@) == self.dataset_view(),
    ;

    /// True when the dataset holds the given quad.
    fn contains(&self, s: &Term, p: &Term, o: &Term, g: Option<&Term>) -> (r: Result<
        bool,
        Self::Error,
    >)
        requires
            self.dataset_inv(),
        ensures
            r is Ok ==> r->Ok_0 == self.dataset_view().contains(
                quad_value(s@, p@, o@, graph_name_ref_view(g)),
            ),
    ;
}

/// Generic protocol of mutable RDF datasets. The boolean results are
/// significant only for a store that is also a [`SetDataset`].
pub trait MutableDataset: Dataset {
    /// The error type a mutation may raise.
    type MutationError;

    /// Whether one more insertion is within the backend's capacity.
    spec fn can_insert(&self) -> bool;

    /// Inserts the given quad; for a set store, returns whether the
    /// store changed.
    fn insert(&mut self, s: &Term, p: &Term, o: &Term, g: Option<&Term>) -> (r: Result<
        bool,
        Self::MutationError,
    >)
        requires
            old(self).dataset_inv(),
            old(self).can_insert(),
        ensures
            final(self).dataset_inv(),
            r is Ok ==> final(self).dataset_view() == spec_insert(
                old(self).dataset_view(),
                quad_value(s@, p@, o@, graph_name_ref_view(g)),
            ) || final(self).dataset_view() == old(self).dataset_view().push(
                quad_value(s@, p@, o@, graph_name_ref_view(g)),
            ),
    ;

    /// Removes the given quad; for a set store, returns whether the
    /// store changed.
    fn remove(&mut self, s: &Term, p: &Term, o: &Term, g: Option<&Term>) -> (r: Result<
        bool,
        Self::MutationError,
    >)
        requires
            old(self).dataset_inv(),
        ensures
            final(self).dataset_inv(),
            r is Ok ==> final(self).dataset_view() == spec_remove(
                old(self).dataset_view(),
                quad_value(s@, p@, o@, graph_name_ref_view(g)),
            ),
    ;
}

/// Capability marker of set-flavoured stores: such a store never holds
/// or yields the same quad twice, and the boolean and count results of
/// its mutations accurately report whether the content changed.
pub trait SetDataset: Dataset {
    /// The set guarantee: a well-formed store holds no duplicates.
    proof fn set_semantics(&self)
        requires
            self.dataset_inv(),
        ensures
            self.dataset_view().no_duplicates(),
    ;
}

/// A dataset that can be built by draining a quad source.
pub trait CollectibleDataset<QS: QuadSource>: Dataset + Sized {
    /// Whether the source's pending items are within the backend's
    /// capacity.
    spec fn can_collect(src: &QS) -> bool;

    /// Builds a dataset holding the quads of the source.
    fn from_quad_source(quad: QS) -> (r: StreamResult<Self, QS::Error, Self::Error>)
        requires
            Self::can_collect(&quad),
        ensures
            match r {
                Ok(d) => d.dataset_inv() && !quad.will_fail(),
                Err(e) => e is SourceError && quad.will_fail(),
            },
    ;
}

impl Dataset for HashDataset {
    type Error = NeverError;

    open spec fn dataset_view(&self) -> Seq<QuadV> {
        self@
    }

    open spec fn dataset_inv(&self) -> bool {
        self.inv()
    }

    fn quads(&self) -> (r: Result<Vec<Quad>, NeverError>) {
        Ok(HashDataset::quads(self))
    }

    fn contains(&self, s: &Term, p: &Term, o: &Term, g: Option<&Term>) -> (r: Result<
        bool,
        NeverError,
    >) {
        Ok(HashDataset::contains(self, s, p, o, g))
    }
}

impl MutableDataset for HashDataset {
    type MutationError = NeverError;

    open spec fn can_insert(&self) -> bool {
        &&& self@.len() < QUAD_CAP as nat
        &&& self.term_slots() + 4 <= u32::MAX as nat
    }

    fn insert(&mut self, s: &Term, p: &Term, o: &Term, g: Option<&Term>) -> (r: Result<
        bool,
        NeverError,
    >) {
        Ok(self.insert_quad(s, p, o, g))
    }

    fn remove(&mut self, s: &Term, p: &Term, o: &Term, g: Option<&Term>) -> (r: Result<
        bool,
        NeverError,
    >) {
        Ok(self.remove_quad(s, p, o, g))
    }
}

impl SetDataset for HashDataset {
    proof fn set_semantics(&self) {
        self.lemma_view_no_duplicates();
    }
}

impl<QS: QuadSource> CollectibleDataset<QS> for HashDataset {
    open spec fn can_collect(src: &QS) -> bool {
        src.src_inv() && src.pending().len() <= QUAD_CAP as nat
    }

    fn from_quad_source(quad: QS) -> (r: StreamResult<HashDataset, QS::Error, NeverError>) {
        HashDataset::from_quad_source(quad)
    }
}

impl Default for HashDataset {
    /// An empty quad store.
    fn default() -> (d: HashDataset)
        ensures
            d.inv(),
            d@ == Seq::<QuadV>::empty(),
            d.term_slots() == 0,
            forall|i: int| !d.index_live(i),
            forall|i: int| d.occurrences(i) == 0,
    {
        HashDataset::new()
    }
}

/// Collects the quads of a source into a new set store.
pub fn collect_quads<QS: QuadSource>(src: QS) -> (r: StreamResult<
    HashDataset,
    QS::Error,
    NeverError,
>)
    requires
        src.src_inv(),
        src.pending().len() <= QUAD_CAP as nat,
    ensures
        match r {
            Ok(d) => {
                &&& d.inv()
                &&& d@ == spec_insert_all(Seq::<QuadV>::empty(), src.pending())
                &&& !src.will_fail()
            },
            Err(e) => e is SourceError && src.will_fail(),
        },
{
    HashDataset::from_quad_source(src)
}

/// Inserts all quads from a source into the given store; stops on the
/// first source condition.
pub fn add_to_dataset<QS: QuadSource>(src: QS, dataset: &mut HashDataset) -> (r: StreamResult<
    usize,
    QS::Error,
    NeverError,
>)
    requires
        old(dataset).inv(),
        src.src_inv(),
        old(dataset)@.len() + src.pending().len() <= QUAD_CAP as nat,
        old(dataset).term_slots() + 4 * src.pending().len() + 4 <= u32::MAX as nat,
    ensures
        final(dataset).inv(),
        final(dataset)@ == spec_insert_all(old(dataset)@, src.pending()),
        match r {
            Ok(n) => n == spec_insert_count(old(dataset)@, src.pending()) && !src.will_fail(),
            Err(e) => e is SourceError && src.will_fail(),
        },
{
    dataset.insert_all(src)
}

} // verus!
