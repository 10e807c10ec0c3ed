//! Per-position matchers used by pattern queries.
//!
//! A term matcher either matches everything, a single fixed term, or any
//! member of a finite set of terms. A graph-name matcher additionally
//! distinguishes "any graph", "the default graph only", "this specific
//! graph name", and "any named graph". A matcher that is reducible to a
//! single constant advertises it through `constant`, which is the fast
//! path the dispatcher keys on.

use vstd::prelude::*;
use crate::term::{graph_name_ref_view, same_graph_name, Term, TermV};

verus! {

/// A matcher for one of the subject, predicate and object positions.
#[derive(Debug)]
pub enum TermMatcher {
    /// Matches every term.
    Any,
    /// Matches exactly the given term.
    Is(Term),
    /// Matches any term equal to a member of the list.
    OneOf(Vec<Term>),
}

/// A matcher for the graph-name position.
#[derive(Debug)]
pub enum GraphNameMatcher {
    /// Matches every graph name, the default graph included.
    Any,
    /// Matches exactly the given graph name (`None`: the default graph).
    Is(Option<Term>),
    /// Matches any graph name equal to a member of the list.
    OneOf(Vec<Option<Term>>),
    /// Matches every named graph, but not the default graph.
    AnyNamed,
}

impl TermMatcher {
    /// What this matcher accepts.
    pub open spec fn spec_matches(&self, t: TermV) -> bool {
        match self {
            TermMatcher::Any => true,
            TermMatcher::Is(c) => t == c@,
            TermMatcher::OneOf(v) => exists|k: int| 0 <= k < v@.len() && (#[trigger] v@[k])@ == t,
        }
    }

    /// True when the matcher accepts `t`.
    #[verifier::loop_isolation(false)]
    pub fn matches(&self, t: &Term) -> (r: bool)
        ensures
            r == self.spec_matches(t@),
    {
        match self {
            TermMatcher::Any => true,
            TermMatcher::Is(c) => c.eq_term(t),
            TermMatcher::OneOf(v) => {
                let n = v.len();
                let mut k: usize = 0;
                while k < n
                    invariant
                        n == v@.len(),
                        0 <= k <= n,
                        forall|j: int| 0 <= j < k ==> (#[trigger] v@[j])@ != t@,
                    decreases n - k,
                {
                    if v[k].eq_term(t) {
                        proof {
                            assert((v@[k as int])@ == t@);
                        }
                        return true;
                    }
                    k = k + 1;
                }
                false
            },
        }
    }

    /// The single term this matcher is equivalent to, if there is one.
    /// When `Some(c)` is returned, matching is exactly equality with `c`.
    pub fn constant(&self) -> (r: Option<&Term>)
        ensures
            match r {
                Some(c) => forall|t: TermV| self.spec_matches(t) == (t == c@),
                None => true,
            },
    {
        match self {
            TermMatcher::Any => None,
            TermMatcher::Is(c) => Some(c),
            TermMatcher::OneOf(v) => {
                if v.len() == 1 {
                    Some(&v[0])
                } else {
                    None
                }
            },
        }
    }
}

impl GraphNameMatcher {
    /// What this matcher accepts.
    pub open spec fn spec_matches(&self, g: Option<TermV>) -> bool {
        match self {
            GraphNameMatcher::Any => true,
            GraphNameMatcher::Is(c) => g == crate::term::graph_name_view(*c),
            GraphNameMatcher::OneOf(v) => exists|k: int|
                0 <= k < v@.len() && #[trigger] crate::term::graph_name_view(v@[k]) == g,
            GraphNameMatcher::AnyNamed => g is Some,
        }
    }

    /// True when the matcher accepts graph name `g`.
    #[verifier::loop_isolation(false)]
    pub fn matches(&self, g: Option<&Term>) -> (r: bool)
        ensures
            r == self.spec_matches(graph_name_ref_view(g)),
    {
        match self {
            GraphNameMatcher::Any => true,
            GraphNameMatcher::Is(c) => same_graph_name(c.as_ref(), g),
            GraphNameMatcher::OneOf(v) => {
                let n = v.len();
                let mut k: usize = 0;
                while k < n
                    invariant
                        n == v@.len(),
                        0 <= k <= n,
                        forall|j: int| 0 <= j < k ==> #[trigger] crate::term::graph_name_view(
                            v@[j],
                        ) != graph_name_ref_view(g),
                    decreases n - k,
                {
                    if same_graph_name(v[k].as_ref(), g) {
                        proof {
                            assert(crate::term::graph_name_view(v@[k as int])
                                == graph_name_ref_view(g));
                        }
                        return true;
                    }
                    k = k + 1;
                }
                false
            },
            GraphNameMatcher::AnyNamed => g.is_some(),
        }
    }

    /// The single graph name this matcher is equivalent to, if there is
    /// one. When `Some(c)` is returned, matching is exactly graph-name
    /// equality with `c`.
    pub fn constant(&self) -> (r: Option<&Option<Term>>)
        ensures
            match r {
                Some(c) => forall|g: Option<TermV>|
                    self.spec_matches(g) == (g == crate::term::graph_name_view(*c)),
                None => true,
            },
    {
        match self {
            GraphNameMatcher::Any => None,
            GraphNameMatcher::Is(c) => Some(c),
            GraphNameMatcher::OneOf(v) => {
                if v.len() == 1 {
                    Some(&v[0])
                } else {
                    None
                }
            },
            GraphNameMatcher::AnyNamed => None,
        }
    }
}

} // verus!
