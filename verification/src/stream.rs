//! The push-based fallible streaming protocol.
//!
//! A quad source produces quads and may also fail in the process; a quad
//! sink consumes them one at a time and may reject one. A source exposes
//! one primitive, [`QuadSource::try_for_some_quad`]: attempt to produce
//! at least one item, feed it to the sink, and report whether further
//! items might still exist. Repeated calls drain the source. The sink's
//! failure (a sink condition) and the source's internal failure (a
//! source condition) are distinguished failure domains, combined into
//! one result type tagged by which side failed; a sink failure aborts a
//! drain after consuming no more items than necessary.

use vstd::prelude::*;
use crate::dataset::{quad_views, Quad, QuadV};

verus! {

/// A failure of a streaming operation, tagged by the side it came from.
#[derive(Debug)]
pub enum StreamError<E1, E2> {
    /// The producer could not continue.
    SourceError(E1),
    /// The consumer rejected an item.
    SinkError(E2),
}

/// The result of a streaming operation.
pub type StreamResult<T, E1, E2> = Result<T, StreamError<E1, E2>>;

impl<E1, E2> StreamError<E1, E2> {
    /// True for a source-side failure.
    pub fn is_source_error(&self) -> (r: bool)
        ensures
            r == (self is SourceError),
    {
        match self {
            StreamError::SourceError(_) => true,
            StreamError::SinkError(_) => false,
        }
    }

    /// True for a sink-side failure.
    pub fn is_sink_error(&self) -> (r: bool)
        ensures
            r == (self is SinkError),
    {
        match self {
            StreamError::SourceError(_) => false,
            StreamError::SinkError(_) => true,
        }
    }
}

/// A consumer of quads: the per-item callback of the streaming
/// protocol, as a trait so that its effect can be stated abstractly. A sink
/// appends every item it accepts to its `accepted` sequence; a rejected
/// item leaves it unchanged.
pub trait QuadSink: Sized {
    /// The type of errors this sink may raise.
    type Error;

    /// The items accepted so far, in feed order.
    spec fn accepted(&self) -> Seq<QuadV>;

    /// Whether this sink accepts every item in every state; a sink for
    /// which this holds never raises an error.
    spec fn always_accepts() -> bool;

    /// Consumes one item, or rejects it leaving the sink unchanged.
    fn feed(&mut self, q: Quad) -> (r: Result<(), Self::Error>)
        ensures
            match r {
                Ok(()) => final(self).accepted() == old(self).accepted().push(q@),
                Err(_) => *final(self) == *old(self) && !Self::always_accepts(),
            },
    ;
}

/// A producer of quads. Its remaining behaviour is modelled by
/// `pending`, the items it will still yield in order, and `will_fail`,
/// whether a source condition follows them; `fuel` bounds the number of
/// remaining productive calls.
pub trait QuadSource: Sized {
    /// The type of errors this source may raise.
    type Error;

    /// The items this source will still yield, in order, before either
    /// exhaustion or its failure.
    spec fn pending(&self) -> Seq<QuadV>;

    /// Whether a source condition follows the pending items.
    spec fn will_fail(&self) -> bool;

    /// An upper bound on the remaining productive calls.
    spec fn fuel(&self) -> nat;

    /// The structural condition the source's operations rely on; for a
    /// source wrapping a caller-supplied closure it ties the closure to
    /// its specification.
    spec fn src_inv(&self) -> bool;

    /// Calls the sink for at least one quad from this source, if any;
    /// returns `Ok(false)` when no more quads exist.
    fn try_for_some_quad<S: QuadSink>(&mut self, f: &mut S) -> (r: StreamResult<
        bool,
        Self::Error,
        S::Error,
    >)
        requires
            old(self).src_inv(),
        ensures
            final(self).src_inv(),
            match r {
                Ok(b) => {
                    if b {
                        &&& final(self).fuel() < old(self).fuel()
                        &&& final(self).will_fail() == old(self).will_fail()
                        &&& {
                            ||| (final(self).pending() == old(self).pending() && *final(f)
                                == *old(f))
                            ||| (old(self).pending().len() > 0 && final(self).pending() == old(
                                self,
                            ).pending().drop_first() && final(f).accepted() == old(
                                f,
                            ).accepted().push(old(self).pending()[0]))
                        }
                    } else {
                        &&& old(self).pending().len() == 0
                        &&& !old(self).will_fail()
                        &&& final(self).pending().len() == 0
                        &&& !final(self).will_fail()
                        &&& *final(f) == *old(f)
                    }
                },
                Err(e) => match e {
                    StreamError::SourceError(_) => {
                        &&& old(self).pending().len() == 0
                        &&& old(self).will_fail()
                        &&& *final(f) == *old(f)
                    },
                    StreamError::SinkError(_) => {
                        &&& old(self).pending().len() > 0
                        &&& final(self).pending() == old(self).pending().drop_first()
                        &&& final(self).will_fail() == old(self).will_fail()
                        &&& *final(f) == *old(f)
                        &&& !S::always_accepts()
                    },
                },
            },
    ;

    /// Calls the sink for every quad of this source, stopping at the
    /// first source or sink condition. On success the whole pending
    /// sequence was fed; on a source condition likewise, the condition
    /// surfacing afterwards; on a sink condition exactly a proper prefix
    /// was fed.
    fn try_for_each_quad<S: QuadSink>(&mut self, f: &mut S) -> (r: StreamResult<
        (),
        Self::Error,
        S::Error,
    >)
        requires
            old(self).src_inv(),
        ensures
            final(self).src_inv(),
            match r {
                Ok(()) => {
                    &&& final(f).accepted() == old(f).accepted() + old(self).pending()
                    &&& !old(self).will_fail()
                },
                Err(e) => match e {
                    StreamError::SourceError(_) => {
                        &&& final(f).accepted() == old(f).accepted() + old(self).pending()
                        &&& old(self).will_fail()
                    },
                    StreamError::SinkError(_) => {
                        &&& exists|k: int|
                            0 <= k < old(self).pending().len() && final(f).accepted() == old(
                                f,
                            ).accepted() + #[trigger] old(self).pending().take(k)
                                && final(self).pending() == old(self).pending().skip(k + 1)
                        &&& !S::always_accepts()
                    },
                },
            },
    {
        let ghost mut consumed: Seq<QuadV> = Seq::empty();
        proof {
            assert(old(self).pending() =~= consumed + self.pending());
            assert(f.accepted() =~= old(f).accepted() + consumed);
        }
        loop
            invariant
                self.src_inv(),
                old(self).pending() == consumed + self.pending(),
                f.accepted() == old(f).accepted() + consumed,
                self.will_fail() == old(self).will_fail(),
            decreases self.fuel(),
        {
            let ghost pend_pre = self.pending();
            let r = self.try_for_some_quad(f);
            match r {
                Ok(true) => {
                    proof {
                        if self.pending() != pend_pre {
                            consumed = consumed.push(pend_pre[0]);
                            assert(old(self).pending() =~= consumed + self.pending()) by {
                                assert(pend_pre =~= seq![pend_pre[0]] + self.pending());
                            }
                            assert(f.accepted() =~= old(f).accepted() + consumed);
                        }
                    }
                },
                Ok(false) => {
                    proof {
                        assert(consumed =~= old(self).pending());
                    }
                    return Ok(());
                },
                Err(e) => {
                    match e {
                        StreamError::SourceError(e2) => {
                            proof {
                                assert(consumed =~= old(self).pending());
                            }
                            return Err(StreamError::SourceError(e2));
                        },
                        StreamError::SinkError(e2) => {
                            proof {
                                let k = consumed.len() as int;
                                assert(old(self).pending().take(k) =~= consumed);
                                assert(0 <= k < old(self).pending().len());
                                assert(self.pending() =~= old(self).pending().skip(k + 1)) by {
                                    assert(old(self).pending() =~= consumed + pend_pre);
                                    assert(self.pending() =~= pend_pre.drop_first());
                                }
                            }
                            return Err(StreamError::SinkError(e2));
                        },
                    }
                },
            }
        }
    }

    /// Calls the sink for at least one quad from this source, for a
    /// sink that never rejects an item: only the source side can fail.
    fn for_some_quad<S: QuadSink>(&mut self, f: &mut S) -> (r: Result<bool, Self::Error>)
        requires
            old(self).src_inv(),
            S::always_accepts(),
        ensures
            final(self).src_inv(),
            match r {
                Ok(b) => {
                    if b {
                        &&& final(self).fuel() < old(self).fuel()
                        &&& final(self).will_fail() == old(self).will_fail()
                        &&& {
                            ||| (final(self).pending() == old(self).pending() && *final(f)
                                == *old(f))
                            ||| (old(self).pending().len() > 0 && final(self).pending() == old(
                                self,
                            ).pending().drop_first() && final(f).accepted() == old(
                                f,
                            ).accepted().push(old(self).pending()[0]))
                        }
                    } else {
                        &&& old(self).pending().len() == 0
                        &&& !old(self).will_fail()
                        &&& *final(f) == *old(f)
                    }
                },
                Err(_) => {
                    &&& old(self).pending().len() == 0
                    &&& old(self).will_fail()
                    &&& *final(f) == *old(f)
                },
            },
    {
        match self.try_for_some_quad(f) {
            Ok(b) => Ok(b),
            Err(StreamError::SourceError(e)) => Err(e),
            Err(StreamError::SinkError(_)) => unreached(),
        }
    }

    /// Calls the sink for every quad of this source, for a sink that
    /// never rejects an item: only the source side can fail.
    fn for_each_quad<S: QuadSink>(&mut self, f: &mut S) -> (r: Result<(), Self::Error>)
        requires
            old(self).src_inv(),
            S::always_accepts(),
        ensures
            final(self).src_inv(),
            match r {
                Ok(()) => {
                    &&& final(f).accepted() == old(f).accepted() + old(self).pending()
                    &&& !old(self).will_fail()
                },
                Err(_) => {
                    &&& final(f).accepted() == old(f).accepted() + old(self).pending()
                    &&& old(self).will_fail()
                },
            },
    {
        match self.try_for_each_quad(f) {
            Ok(()) => Ok(()),
            Err(StreamError::SourceError(e)) => Err(e),
            Err(StreamError::SinkError(_)) => unreached(),
        }
    }

    /// Bounds on the number of quads this source will still yield.
    fn size_hint_quads(&self) -> (r: (usize, Option<usize>))
        ensures
            r.0 <= self.pending().len(),
            match r.1 {
                Some(u) => self.pending().len() <= u,
                None => true,
            },
    {
        (0, None)
    }

}

/// Wraps a source so that only the quads accepted by the given
/// predicate are yielded; `pred` is the predicate's specification,
/// which the closure must decide.
pub fn filter_quads<QS: QuadSource, F: Fn(&Quad) -> bool>(
    source: QS,
    filter: F,
    Ghost(pred): Ghost<spec_fn(QuadV) -> bool>,
) -> (r: FilterSource<QS, F>)
    requires
        source.src_inv(),
        forall|q: Quad| call_requires(filter, (&q,)),
        forall|q: Quad, b: bool| call_ensures(filter, (&q,), b) ==> b == pred(q@),
    ensures
        r.src_inv(),
        r.pending() == source.pending().filter(pred),
        r.will_fail() == source.will_fail(),
{
    FilterSource { source, filter, gpred: Ghost(pred) }
}

/// A source yielding only the quads of an underlying source that a
/// caller-supplied predicate accepts; items filtered out are consumed
/// without reaching the sink.
pub struct FilterSource<QS, F> {
    source: QS,
    filter: F,
    gpred: Ghost<spec_fn(QuadV) -> bool>,
}

impl<QS: QuadSource, F: Fn(&Quad) -> bool> QuadSource for FilterSource<QS, F> {
    type Error = QS::Error;

    closed spec fn pending(&self) -> Seq<QuadV> {
        self.source.pending().filter(self.gpred@)
    }

    closed spec fn will_fail(&self) -> bool {
        self.source.will_fail()
    }

    closed spec fn fuel(&self) -> nat {
        self.source.fuel()
    }

    closed spec fn src_inv(&self) -> bool {
        &&& self.source.src_inv()
        &&& (forall|q: Quad| call_requires(self.filter, (&q,)))
        &&& (forall|q: Quad, b: bool|
            call_ensures(self.filter, (&q,), b) ==> b == self.gpred@(q@))
    }

    fn try_for_some_quad<S: QuadSink>(&mut self, f: &mut S) -> (r: StreamResult<
        bool,
        QS::Error,
        S::Error,
    >) {
        let ghost sp = self.source.pending();
        let ghost pred = self.gpred@;
        let mut slot = QuadCollector::new();
        let ghost fresh = slot;
        let r = self.source.try_for_some_quad(&mut slot);
        let ghost slot_items = slot.items@;
        match r {
            Ok(true) => {
                match slot.items.pop() {
                    Some(q) => {
                        proof {
                            assert(slot_items =~= slot.items@.push(q));
                            assert(slot_items.len() >= 1);
                            assert(quad_views(slot_items).len() == slot_items.len());
                            assert(sp.len() > 0 && quad_views(slot_items)
                                == fresh.accepted().push(sp[0]) && self.source.pending()
                                == sp.drop_first());
                            assert(quad_views(slot_items)[0] == sp[0]);
                            assert(quad_views(slot_items)[0] == q@);
                            crate::seq_lemmas::lemma_filter_first(sp, pred);
                            assert(self.fuel() < old(self).fuel());
                        }
                        let keep = (self.filter)(&q);
                        proof {
                            assert(keep == pred(q@));
                            if keep {
                                assert(old(self).pending() =~= seq![q@]
                                    + sp.drop_first().filter(pred));
                                assert(self.pending() =~= old(self).pending().drop_first());
                                assert(old(self).pending()[0] == q@);
                            } else {
                                assert(old(self).pending() =~= self.pending());
                            }
                        }
                        if keep {
                            match f.feed(q) {
                                Ok(()) => Ok(true),
                                Err(e) => Err(StreamError::SinkError(e)),
                            }
                        } else {
                            Ok(true)
                        }
                    },
                    None => {
                        proof {
                            assert(slot_items.len() == 0);
                            assert(self.source.pending() == sp);
                            assert(self.fuel() < old(self).fuel());
                        }
                        Ok(true)
                    },
                }
            },
            Ok(false) => {
                proof {
                    crate::seq_lemmas::lemma_filter_empty_iff(sp, pred);
                    crate::seq_lemmas::lemma_filter_empty_iff(self.source.pending(), pred);
                }
                Ok(false)
            },
            Err(StreamError::SourceError(e)) => {
                proof {
                    crate::seq_lemmas::lemma_filter_empty_iff(sp, pred);
                }
                Err(StreamError::SourceError(e))
            },
            Err(StreamError::SinkError(_)) => unreached(),
        }
    }
}

/// A source yielding the quads of an owned list of results, in order; an
/// `Err` entry surfaces as a source condition when it is reached.
pub struct VecQuadSource<E> {
    items: Vec<Result<Quad, E>>,
    pos: usize,
}

/// The quad values of the leading `Ok` entries of `items`.
pub open spec fn ok_prefix_views<E>(items: Seq<Result<Quad, E>>) -> Seq<QuadV>
    decreases items.len(),
{
    if items.len() == 0 {
        Seq::empty()
    } else {
        match items[0] {
            Ok(q) => seq![q@] + ok_prefix_views(items.drop_first()),
            Err(_) => Seq::empty(),
        }
    }
}

/// Whether the leading `Ok` entries of `items` are followed by an `Err`.
pub open spec fn has_err_after_prefix<E>(items: Seq<Result<Quad, E>>) -> bool
    decreases items.len(),
{
    if items.len() == 0 {
        false
    } else {
        match items[0] {
            Ok(_) => has_err_after_prefix(items.drop_first()),
            Err(_) => true,
        }
    }
}

impl<E: Clone> VecQuadSource<E> {
    /// The entries not consumed yet.
    closed spec fn remaining(&self) -> Seq<Result<Quad, E>> {
        if self.pos as int <= self.items@.len() {
            self.items@.skip(self.pos as int)
        } else {
            Seq::empty()
        }
    }

    /// A source over the given entries.
    pub fn new(items: Vec<Result<Quad, E>>) -> (r: VecQuadSource<E>)
        ensures
            r.pending() == ok_prefix_views(items@),
            r.will_fail() == has_err_after_prefix(items@),
    {
        let r = VecQuadSource { items, pos: 0 };
        proof {
            assert(r.remaining() =~= r.items@);
        }
        r
    }

    /// A source over the given quads, which never fails.
    pub fn from_quads(quads: Vec<Quad>) -> (r: VecQuadSource<E>)
        ensures
            r.pending() == quad_views(quads@),
            !r.will_fail(),
    {
        let mut items: Vec<Result<Quad, E>> = Vec::new();
        let n = quads.len();
        let mut k: usize = 0;
        proof {
            assert(ok_prefix_views(items@) =~= quad_views(quads@).take(0));
        }
        while k < n
            invariant
                n == quads@.len(),
                0 <= k <= n,
                ok_prefix_views(items@) == quad_views(quads@).take(k as int),
                !has_err_after_prefix(items@),
            decreases n - k,
        {
            let ghost before = items@;
            items.push(Ok(quads[k].duplicate()));
            proof {
                lemma_ok_prefix_push::<E>(before, items@[items@.len() - 1]->Ok_0);
                assert(quad_views(quads@).take(k + 1) =~= quad_views(quads@).take(k as int).push(
                    quads@[k as int]@,
                ));
            }
            k = k + 1;
        }
        let r = VecQuadSource::new(items);
        proof {
            assert(quad_views(quads@).take(n as int) =~= quad_views(quads@));
        }
        r
    }
}

/// Appending one more quad entry to an error-free list extends its
/// pending quads by that quad.
proof fn lemma_ok_prefix_push<E>(items: Seq<Result<Quad, E>>, q: Quad)
    requires
        !has_err_after_prefix(items),
    ensures
        ok_prefix_views(items.push(Ok(q))) == ok_prefix_views(items).push(q@),
        !has_err_after_prefix(items.push(Ok(q))),
    decreases items.len(),
{
    if items.len() == 0 {
        assert(items.push(Ok(q))[0] == Ok::<Quad, E>(q));
        assert(items.push(Ok(q)).drop_first() =~= items);
        assert(ok_prefix_views(items.push(Ok(q))) =~= ok_prefix_views(items).push(q@));
    } else {
        assert(items[0] is Ok);
        lemma_ok_prefix_push(items.drop_first(), q);
        assert(items.push(Ok(q)).drop_first() =~= items.drop_first().push(Ok(q)));
        assert(items.push(Ok(q))[0] == items[0]);
        assert(ok_prefix_views(items.push(Ok(q))) =~= ok_prefix_views(items).push(q@));
    }
}

impl<E: Clone> QuadSource for VecQuadSource<E> {
    type Error = E;

    closed spec fn pending(&self) -> Seq<QuadV> {
        ok_prefix_views(self.remaining())
    }

    closed spec fn will_fail(&self) -> bool {
        has_err_after_prefix(self.remaining())
    }

    closed spec fn fuel(&self) -> nat {
        self.remaining().len()
    }

    open spec fn src_inv(&self) -> bool {
        true
    }

    fn try_for_some_quad<S: QuadSink>(&mut self, f: &mut S) -> (r: StreamResult<
        bool,
        E,
        S::Error,
    >) {
        if self.pos >= self.items.len() {
            proof {
                if self.pos as int <= self.items@.len() {
                    assert(self.remaining() =~= Seq::<Result<Quad, E>>::empty());
                }
            }
            return Ok(false);
        }
        let ghost rest = self.remaining();
        proof {
            assert(rest =~= self.items@.skip(self.pos as int));
            assert(rest[0] == self.items@[self.pos as int]);
        }
        match &self.items[self.pos] {
            Ok(q) => {
                let qd = q.duplicate();
                self.pos = self.pos + 1;
                proof {
                    assert(self.remaining() =~= rest.drop_first());
                    assert(old(self).pending() =~= seq![qd@] + self.pending());
                    assert(self.pending() =~= old(self).pending().drop_first());
                    assert(old(self).pending()[0] == qd@);
                    assert(self.will_fail() == old(self).will_fail());
                    assert(old(self).fuel() == rest.len());
                    assert(self.fuel() == rest.len() - 1);
                }
                match f.feed(qd) {
                    Ok(()) => Ok(true),
                    Err(e) => Err(StreamError::SinkError(e)),
                }
            },
            Err(e) => {
                let e2 = e.clone();
                self.pos = self.pos + 1;
                proof {
                    assert(old(self).pending() =~= Seq::<QuadV>::empty());
                    assert(old(self).will_fail());
                }
                Err(StreamError::SourceError(e2))
            },
        }
    }
}

/// Wraps a source so that every quad is transformed by the given
/// function before it reaches the sink; `fun` is the function's
/// specification, which the closure must compute.
pub fn map_quads<QS: QuadSource, F: Fn(&Quad) -> Quad>(
    source: QS,
    map: F,
    Ghost(fun): Ghost<spec_fn(QuadV) -> QuadV>,
) -> (r: MapSource<QS, F>)
    requires
        source.src_inv(),
        forall|q: Quad| call_requires(map, (&q,)),
        forall|q: Quad, m: Quad| call_ensures(map, (&q,), m) ==> m@ == fun(q@),
    ensures
        r.src_inv(),
        r.pending() == source.pending().map_values(fun),
        r.will_fail() == source.will_fail(),
{
    MapSource { source, map, gfun: Ghost(fun) }
}

/// A source yielding the quads of an underlying source, each
/// transformed by a caller-supplied function.
pub struct MapSource<QS, F> {
    source: QS,
    map: F,
    gfun: Ghost<spec_fn(QuadV) -> QuadV>,
}

impl<QS: QuadSource, F: Fn(&Quad) -> Quad> QuadSource for MapSource<QS, F> {
    type Error = QS::Error;

    closed spec fn pending(&self) -> Seq<QuadV> {
        self.source.pending().map_values(self.gfun@)
    }

    closed spec fn will_fail(&self) -> bool {
        self.source.will_fail()
    }

    closed spec fn fuel(&self) -> nat {
        self.source.fuel()
    }

    closed spec fn src_inv(&self) -> bool {
        &&& self.source.src_inv()
        &&& (forall|q: Quad| call_requires(self.map, (&q,)))
        &&& (forall|q: Quad, m: Quad| call_ensures(self.map, (&q,), m) ==> m@ == self.gfun@(q@))
    }

    fn try_for_some_quad<S: QuadSink>(&mut self, f: &mut S) -> (r: StreamResult<
        bool,
        QS::Error,
        S::Error,
    >) {
        let ghost sp = self.source.pending();
        let ghost fun = self.gfun@;
        let mut slot = QuadCollector::new();
        let ghost fresh = slot;
        let r = self.source.try_for_some_quad(&mut slot);
        let ghost slot_items = slot.items@;
        match r {
            Ok(true) => {
                match slot.items.pop() {
                    Some(q) => {
                        proof {
                            assert(slot_items =~= slot.items@.push(q));
                            assert(quad_views(slot_items).len() == slot_items.len());
                            assert(sp.len() > 0 && quad_views(slot_items)
                                == fresh.accepted().push(sp[0]) && self.source.pending()
                                == sp.drop_first());
                            assert(quad_views(slot_items)[0] == sp[0]);
                            assert(quad_views(slot_items)[0] == q@);
                            assert(self.fuel() < old(self).fuel());
                        }
                        let m = (self.map)(&q);
                        proof {
                            assert(m@ == fun(q@));
                            assert(old(self).pending()[0] == m@);
                            assert(self.pending() =~= old(self).pending().drop_first());
                        }
                        match f.feed(m) {
                            Ok(()) => Ok(true),
                            Err(e) => Err(StreamError::SinkError(e)),
                        }
                    },
                    None => {
                        proof {
                            assert(slot.items@ =~= slot_items);
                            assert(slot_items.len() == 0);
                            assert(quad_views(slot_items).len() == 0);
                            assert(self.source.pending() == sp);
                            assert(self.fuel() < old(self).fuel());
                            assert(self.pending() =~= old(self).pending());
                        }
                        Ok(true)
                    },
                }
            },
            Ok(false) => {
                Ok(false)
            },
            Err(StreamError::SourceError(e)) => {
                Err(StreamError::SourceError(e))
            },
            Err(StreamError::SinkError(_)) => unreached(),
        }
    }
}

/// Wraps a source so that each quad is transformed and possibly
/// dropped by the given function; `fun` is the function's
/// specification, which the closure must compute.
pub fn filter_map_quads<QS: QuadSource, F: Fn(&Quad) -> Option<Quad>>(
    source: QS,
    filter_map: F,
    Ghost(fun): Ghost<spec_fn(QuadV) -> Option<QuadV>>,
) -> (r: FilterMapSource<QS, F>)
    requires
        source.src_inv(),
        forall|q: Quad| call_requires(filter_map, (&q,)),
        forall|q: Quad, m: Option<Quad>|
            call_ensures(filter_map, (&q,), m) ==> (match m {
                Some(mq) => fun(q@) == Some(mq@),
                None => fun(q@) is None,
            }),
    ensures
        r.src_inv(),
        r.pending() == source.pending().filter_map(fun),
        r.will_fail() == source.will_fail(),
{
    FilterMapSource { source, filter_map, gfun: Ghost(fun) }
}

/// A source yielding the present images of the quads of an underlying
/// source under a caller-supplied partial transformation.
pub struct FilterMapSource<QS, F> {
    source: QS,
    filter_map: F,
    gfun: Ghost<spec_fn(QuadV) -> Option<QuadV>>,
}

impl<QS: QuadSource, F: Fn(&Quad) -> Option<Quad>> QuadSource for FilterMapSource<QS, F> {
    type Error = QS::Error;

    closed spec fn pending(&self) -> Seq<QuadV> {
        self.source.pending().filter_map(self.gfun@)
    }

    closed spec fn will_fail(&self) -> bool {
        self.source.will_fail()
    }

    closed spec fn fuel(&self) -> nat {
        self.source.fuel()
    }

    closed spec fn src_inv(&self) -> bool {
        &&& self.source.src_inv()
        &&& (forall|q: Quad| call_requires(self.filter_map, (&q,)))
        &&& (forall|q: Quad, m: Option<Quad>|
            call_ensures(self.filter_map, (&q,), m) ==> (match m {
                Some(mq) => self.gfun@(q@) == Some(mq@),
                None => self.gfun@(q@) is None,
            }))
    }

    fn try_for_some_quad<S: QuadSink>(&mut self, f: &mut S) -> (r: StreamResult<
        bool,
        QS::Error,
        S::Error,
    >) {
        let ghost sp = self.source.pending();
        let ghost fun = self.gfun@;
        let mut slot = QuadCollector::new();
        let ghost fresh = slot;
        let r = self.source.try_for_some_quad(&mut slot);
        let ghost slot_items = slot.items@;
        match r {
            Ok(true) => {
                match slot.items.pop() {
                    Some(q) => {
                        proof {
                            assert(slot_items =~= slot.items@.push(q));
                            assert(quad_views(slot_items).len() == slot_items.len());
                            assert(sp.len() > 0 && quad_views(slot_items)
                                == fresh.accepted().push(sp[0]) && self.source.pending()
                                == sp.drop_first());
                            assert(quad_views(slot_items)[0] == sp[0]);
                            assert(quad_views(slot_items)[0] == q@);
                            crate::seq_lemmas::lemma_filter_map_first(sp, fun);
                            assert(self.fuel() < old(self).fuel());
                        }
                        let m = (self.filter_map)(&q);
                        match m {
                            Some(mq) => {
                                proof {
                                    assert(fun(q@) == Some(mq@));
                                    assert(old(self).pending() =~= seq![mq@]
                                        + sp.drop_first().filter_map(fun));
                                    assert(old(self).pending()[0] == mq@);
                                    assert(self.pending() =~= old(
                                        self,
                                    ).pending().drop_first());
                                }
                                match f.feed(mq) {
                                    Ok(()) => Ok(true),
                                    Err(e) => Err(StreamError::SinkError(e)),
                                }
                            },
                            None => {
                                proof {
                                    assert(fun(q@) is None);
                                    assert(old(self).pending() =~= self.pending());
                                }
                                Ok(true)
                            },
                        }
                    },
                    None => {
                        proof {
                            assert(slot.items@ =~= slot_items);
                            assert(slot_items.len() == 0);
                            assert(quad_views(slot_items).len() == 0);
                            assert(self.source.pending() == sp);
                            assert(self.fuel() < old(self).fuel());
                            assert(self.pending() =~= old(self).pending());
                        }
                        Ok(true)
                    },
                }
            },
            Ok(false) => {
                Ok(false)
            },
            Err(StreamError::SourceError(e)) => {
                Err(StreamError::SourceError(e))
            },
            Err(StreamError::SinkError(_)) => unreached(),
        }
    }
}

/// A sink that collects every quad it is fed; it never rejects one.
pub struct QuadCollector {
    /// The quads collected so far, in feed order.
    pub items: Vec<Quad>,
}

/// The error a bounded sink raises when its capacity is exhausted.
#[derive(Debug)]
pub struct SinkFull;

impl QuadCollector {
    /// An empty collector.
    pub fn new() -> (r: QuadCollector)
        ensures
            r.items@.len() == 0,
            r.accepted() == Seq::<QuadV>::empty(),
    {
        let r = QuadCollector { items: Vec::new() };
        proof {
            assert(r.accepted() =~= Seq::<QuadV>::empty());
        }
        r
    }
}

impl QuadSink for QuadCollector {
    type Error = SinkFull;

    open spec fn accepted(&self) -> Seq<QuadV> {
        quad_views(self.items@)
    }

    open spec fn always_accepts() -> bool {
        true
    }

    fn feed(&mut self, q: Quad) -> (r: Result<(), SinkFull>) {
        let ghost pre = quad_views(self.items@);
        self.items.push(q);
        proof {
            assert(quad_views(self.items@) =~= pre.push(self.items@[self.items@.len() - 1]@));
        }
        Ok(())
    }
}

/// A sink that collects at most `cap` quads and rejects every further
/// one, leaving its state unchanged.
pub struct CappedCollector {
    /// The quads collected so far, in feed order.
    pub items: Vec<Quad>,
    /// How many quads this sink accepts in total.
    pub cap: usize,
}

impl CappedCollector {
    /// An empty collector accepting at most `cap` quads.
    pub fn new(cap: usize) -> (r: CappedCollector)
        ensures
            r.items@.len() == 0,
            r.cap == cap,
            r.accepted() == Seq::<QuadV>::empty(),
    {
        let r = CappedCollector { items: Vec::new(), cap };
        proof {
            assert(r.accepted() =~= Seq::<QuadV>::empty());
        }
        r
    }
}

impl QuadSink for CappedCollector {
    type Error = SinkFull;

    open spec fn accepted(&self) -> Seq<QuadV> {
        quad_views(self.items@)
    }

    open spec fn always_accepts() -> bool {
        false
    }

    fn feed(&mut self, q: Quad) -> (r: Result<(), SinkFull>) {
        if self.items.len() < self.cap {
            let ghost pre = quad_views(self.items@);
            self.items.push(q);
            proof {
                assert(quad_views(self.items@) =~= pre.push(
                    self.items@[self.items@.len() - 1]@,
                ));
            }
            Ok(())
        } else {
            Err(SinkFull)
        }
    }
}

} // verus!
