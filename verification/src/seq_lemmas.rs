//! Small general facts about `Seq::filter` used by the scan and
//! mutation proofs.

use vstd::prelude::*;

verus! {

/// Filtering twice is filtering by the conjunction.
pub proof fn lemma_filter_compose<A>(s: Seq<A>, p: spec_fn(A) -> bool, q: spec_fn(A) -> bool)
    ensures
        s.filter(p).filter(q) == s.filter(|x: A| p(x) && q(x)),
    decreases s.len(),
{
    reveal(Seq::filter);
    if s.len() == 0 {
        assert(s.filter(p).filter(q) =~= s.filter(|x: A| p(x) && q(x)));
    } else {
        let rest = s.drop_last();
        lemma_filter_compose(rest, p, q);
        let last = s.last();
        broadcast use vstd::prelude::Seq::lemma_filter_push;

        assert(rest.push(last) =~= s);
        if p(last) {
            assert(s.filter(p) == rest.filter(p).push(last));
        }
        assert(s.filter(p).filter(q) =~= s.filter(|x: A| p(x) && q(x)));
    }
}

/// Predicates that agree on the elements of `s` filter `s` identically.
pub proof fn lemma_filter_congruent<A>(s: Seq<A>, p: spec_fn(A) -> bool, q: spec_fn(A) -> bool)
    requires
        forall|x: A| s.contains(x) ==> p(x) == q(x),
    ensures
        s.filter(p) == s.filter(q),
    decreases s.len(),
{
    reveal(Seq::filter);
    if s.len() == 0 {
        assert(s.filter(p) =~= s.filter(q));
    } else {
        let rest = s.drop_last();
        assert(forall|x: A| rest.contains(x) ==> s.contains(x)) by {
            assert(forall|i: int| 0 <= i < rest.len() ==> s[i] == #[trigger] rest[i]);
        }
        lemma_filter_congruent(rest, p, q);
        assert(s.contains(s.last()));
    }
}

/// A filter keeping every element of `s` returns `s` itself.
pub proof fn lemma_filter_all<A>(s: Seq<A>, p: spec_fn(A) -> bool)
    requires
        forall|x: A| s.contains(x) ==> p(x),
    ensures
        s.filter(p) == s,
    decreases s.len(),
{
    reveal(Seq::filter);
    if s.len() == 0 {
        assert(s.filter(p) =~= s);
    } else {
        let rest = s.drop_last();
        assert(forall|x: A| rest.contains(x) ==> s.contains(x)) by {
            assert(forall|i: int| 0 <= i < rest.len() ==> s[i] == #[trigger] rest[i]);
        }
        lemma_filter_all(rest, p);
        assert(s.contains(s.last()));
        assert(s.filter(p) =~= s);
    }
}

/// The filtered sequence is empty exactly when no element satisfies the
/// predicate.
pub proof fn lemma_filter_empty_iff<A>(s: Seq<A>, p: spec_fn(A) -> bool)
    ensures
        s.filter(p).len() == 0 <==> (forall|i: int| 0 <= i < s.len() ==> !p(#[trigger] s[i])),
    decreases s.len(),
{
    reveal(Seq::filter);
    if s.len() == 0 {
    } else {
        let rest = s.drop_last();
        lemma_filter_empty_iff(rest, p);
        assert(forall|i: int| 0 <= i < rest.len() ==> rest[i] == #[trigger] s[i]);
        assert(s[s.len() - 1] == s.last());
    }
}

/// Removing one occurrence of an element that a duplicate-free sequence
/// holds at position `k` filters that element out.
pub proof fn lemma_remove_is_filter<A>(s: Seq<A>, k: int)
    requires
        s.no_duplicates(),
        0 <= k < s.len(),
    ensures
        s.remove(k) == s.filter(|x: A| x != s[k]),
    decreases s.len(),
{
    reveal(Seq::filter);
    let p = |x: A| x != s[k];
    if s.len() == 0 {
    } else {
        let rest = s.drop_last();
        let last = s.last();
        assert(forall|i: int| 0 <= i < rest.len() ==> rest[i] == #[trigger] s[i]);
        if k == s.len() - 1 {
            assert(!p(last));
            assert(forall|x: A| rest.contains(x) ==> p(x)) by {
                assert(forall|i: int|
                    0 <= i < rest.len() ==> rest[i] == #[trigger] s[i] && s[i] != s[k]);
            }
            lemma_filter_all(rest, p);
            assert(s.remove(k) =~= rest);
        } else {
            assert(p(last));
            assert(rest.no_duplicates());
            lemma_remove_is_filter(rest, k);
            assert(rest[k] == s[k]);
            assert(s.filter(p) == rest.filter(p).push(last)) by {
                broadcast use vstd::prelude::Seq::lemma_filter_push;

                assert(rest.push(last) =~= s);
            }
            assert(rest.filter(|x: A| x != rest[k]) == rest.filter(p)) by {
                lemma_filter_congruent(rest, |x: A| x != rest[k], p);
            }
            assert(s.remove(k) =~= rest.remove(k).push(last));
        }
    }
}

/// Filtering steps through the first element: it is kept or dropped
/// according to the predicate, the rest filtered recursively.
pub proof fn lemma_filter_first<A>(s: Seq<A>, p: spec_fn(A) -> bool)
    requires
        s.len() > 0,
    ensures
        p(s[0]) ==> s.filter(p) == seq![s[0]] + s.drop_first().filter(p),
        !p(s[0]) ==> s.filter(p) == s.drop_first().filter(p),
    decreases s.len(),
{
    reveal(Seq::filter);
    if s.len() == 1 {
        assert(s.drop_last() =~= Seq::<A>::empty());
        assert(s.drop_first() =~= Seq::<A>::empty());
        assert(s.last() == s[0]);
        if p(s[0]) {
            assert(s.filter(p) =~= seq![s[0]] + s.drop_first().filter(p));
        }
    } else {
        let rest = s.drop_last();
        let last = s.last();
        assert(rest.len() > 0 && rest[0] == s[0]);
        lemma_filter_first(rest, p);
        broadcast use vstd::prelude::Seq::lemma_filter_push;

        assert(rest.push(last) =~= s);
        assert(s.drop_first() =~= rest.drop_first().push(last));
        if p(s[0]) {
            assert(s.filter(p) =~= seq![s[0]] + s.drop_first().filter(p));
        } else {
            assert(s.filter(p) =~= s.drop_first().filter(p));
        }
    }
}

/// Mapping-and-filtering steps through the first element: its image is
/// kept when present, the rest transformed recursively.
pub proof fn lemma_filter_map_first<A, B>(s: Seq<A>, f: spec_fn(A) -> Option<B>)
    requires
        s.len() > 0,
    ensures
        f(s[0]) is Some ==> s.filter_map(f) == seq![f(s[0])->0] + s.drop_first().filter_map(f),
        f(s[0]) is None ==> s.filter_map(f) == s.drop_first().filter_map(f),
    decreases s.len(),
{
    reveal_with_fuel(Seq::filter_map, 2);
    if s.len() == 1 {
        assert(s.drop_last() =~= Seq::<A>::empty());
        assert(s.drop_first() =~= Seq::<A>::empty());
        assert(s.last() == s[0]);
        if f(s[0]) is Some {
            assert(s.filter_map(f) =~= seq![f(s[0])->0] + s.drop_first().filter_map(f));
        }
    } else {
        let rest = s.drop_last();
        let last = s.last();
        assert(rest.len() > 0 && rest[0] == s[0]);
        lemma_filter_map_first(rest, f);
        assert(rest.push(last) =~= s);
        assert(s.drop_first() =~= rest.drop_first().push(last));
        assert(s.drop_first().drop_last() =~= rest.drop_first());
        assert(s.drop_first().last() == last);
        if f(s[0]) is Some {
            assert(s.filter_map(f) =~= seq![f(s[0])->0] + s.drop_first().filter_map(f));
        } else {
            assert(s.filter_map(f) =~= s.drop_first().filter_map(f));
        }
    }
}

/// What holds of a duplicate-free sequence after appending an element
/// only when it is absent.
pub proof fn lemma_set_insert<A>(pre: Seq<A>, post: Seq<A>, x: A)
    requires
        pre.no_duplicates(),
        pre.contains(x) ==> post == pre,
        !pre.contains(x) ==> post == pre.push(x),
    ensures
        post.no_duplicates(),
        forall|t: A| post.contains(t) <==> pre.contains(t) || t == x,
{
    if pre.contains(x) {
    } else {
        assert forall|a: int, b: int| 0 <= a < b < post.len() implies post[a] != post[b] by {
            if b < pre.len() {
            } else {
                assert(post[b] == x);
                assert(pre.contains(pre[a]));
            }
        }
        assert forall|t: A| post.contains(t) implies pre.contains(t) || t == x by {
            let i = choose|i: int| 0 <= i < post.len() && post[i] == t;
            if i < pre.len() {
                assert(pre[i] == t);
            }
        }
        assert forall|t: A| pre.contains(t) || t == x implies post.contains(t) by {
            if pre.contains(t) {
                let i = choose|i: int| 0 <= i < pre.len() && pre[i] == t;
                assert(post[i] == t);
            } else {
                assert(post[pre.len() as int] == x);
            }
        }
    }
}

/// Filtering keeps a sequence duplicate-free.
pub proof fn lemma_filter_preserves_no_duplicates<A>(s: Seq<A>, p: spec_fn(A) -> bool)
    requires
        s.no_duplicates(),
    ensures
        s.filter(p).no_duplicates(),
    decreases s.len(),
{
    reveal(Seq::filter);
    if s.len() > 0 {
        let rest = s.drop_last();
        let last = s.last();
        assert(rest.no_duplicates());
        lemma_filter_preserves_no_duplicates(rest, p);
        if p(last) {
            assert(!rest.filter(p).contains(last)) by {
                if rest.filter(p).contains(last) {
                    rest.lemma_filter_contains_rev(p, last);
                    let i = choose|i: int| 0 <= i < rest.len() && rest[i] == last;
                    assert(s[i] == last && s[s.len() - 1] == last);
                }
            }
            let f = s.filter(p);
            assert(f == rest.filter(p).push(last));
            assert forall|a: int, b: int| 0 <= a < b < f.len() implies f[a] != f[b] by {
                if b == f.len() - 1 {
                    assert(rest.filter(p).contains(f[a]));
                }
            }
        }
    }
}

/// Narrowing a filter by additionally excluding one value `v` is the
/// same as filtering once by the narrowed predicate.
pub proof fn lemma_filter_minus_one<A>(
    s: Seq<A>,
    p1: spec_fn(A) -> bool,
    p2: spec_fn(A) -> bool,
    ex: spec_fn(A) -> bool,
    v: A,
)
    requires
        forall|x: A| #[trigger] ex(x) == (x != v),
        forall|x: A| #[trigger] s.contains(x) ==> p2(x) == (p1(x) && x != v),
    ensures
        s.filter(p1).filter(ex) == s.filter(p2),
    decreases s.len(),
{
    reveal(Seq::filter);
    if s.len() == 0 {
        assert(s.filter(p1).filter(ex) =~= s.filter(p2));
    } else {
        let rest = s.drop_last();
        let last = s.last();
        assert(forall|x: A| rest.contains(x) ==> s.contains(x)) by {
            assert(forall|i: int| 0 <= i < rest.len() ==> s[i] == #[trigger] rest[i]);
        }
        lemma_filter_minus_one(rest, p1, p2, ex, v);
        assert(s.contains(last));
        broadcast use vstd::prelude::Seq::lemma_filter_push;

        assert(rest.push(last) =~= s);
        assert(ex(last) == (last != v));
        if p1(last) {
            assert(s.filter(p1) == rest.filter(p1).push(last));
        }
        assert(s.filter(p1).filter(ex) =~= s.filter(p2));
    }
}

/// Removing an element keeps a sequence duplicate-free.
pub proof fn lemma_remove_preserves_no_duplicates<A>(s: Seq<A>, k: int)
    requires
        s.no_duplicates(),
        0 <= k < s.len(),
    ensures
        s.remove(k).no_duplicates(),
{
    let r = s.remove(k);
    assert forall|a: int, b: int| 0 <= a < b < r.len() implies r[a] != r[b] by {
        let a0 = if a < k {
            a
        } else {
            a + 1
        };
        let b0 = if b < k {
            b
        } else {
            b + 1
        };
        assert(r[a] == s[a0] && r[b] == s[b0]);
    }
}

} // verus!
