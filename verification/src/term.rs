//! The canonical owned term representation used throughout the store.
//!
//! A term is an opaque, structurally comparable value: an IRI, a blank
//! node, a literal (lexical form plus an optional language tag or datatype
//! IRI), or a variable. Construction and validation of the payloads is not
//! this crate's concern; the store only compares, clones and hashes them.

use vstd::prelude::*;

verus! {

/// Spec-level image of a literal's qualifier.
pub enum LiteralKindV {
    Simple,
    Lang(Seq<char>),
    Datatype(Seq<char>),
}

/// Spec-level image of a term: the same shape as [`Term`], with character
/// sequences in place of heap strings.
pub enum TermV {
    Iri(Seq<char>),
    BNode(Seq<char>),
    Literal(Seq<char>, LiteralKindV),
    Variable(Seq<char>),
}

/// Qualifier of a literal: none, a language tag, or a datatype IRI.
#[derive(Debug)]
pub enum LiteralKind {
    Simple,
    Lang(String),
    Datatype(String),
}

/// An owned RDF-style term value.
#[derive(Debug)]
pub enum Term {
    Iri(String),
    BNode(String),
    Literal(String, LiteralKind),
    Variable(String),
}

impl View for LiteralKind {
    type V = LiteralKindV;

    open spec fn view(&self) -> LiteralKindV {
        match self {
            LiteralKind::Simple => LiteralKindV::Simple,
            LiteralKind::Lang(l) => LiteralKindV::Lang(l@),
            LiteralKind::Datatype(d) => LiteralKindV::Datatype(d@),
        }
    }
}

impl View for Term {
    type V = TermV;

    open spec fn view(&self) -> TermV {
        match self {
            Term::Iri(s) => TermV::Iri(s@),
            Term::BNode(s) => TermV::BNode(s@),
            Term::Literal(s, k) => TermV::Literal(s@, k@),
            Term::Variable(s) => TermV::Variable(s@),
        }
    }
}

/// A graph name: `None` denotes the default (unnamed) graph.
pub type GraphName = Option<Term>;

/// Spec-level image of a graph name.
pub open spec fn graph_name_view(g: Option<Term>) -> Option<TermV> {
    match g {
        Some(t) => Some(t@),
        None => None,
    }
}

/// Spec-level image of a borrowed graph name.
pub open spec fn graph_name_ref_view(g: Option<&Term>) -> Option<TermV> {
    match g {
        Some(t) => Some(t@),
        None => None,
    }
}

impl LiteralKind {
    /// Structural equality of literal qualifiers.
    pub fn eq_kind(&self, other: &LiteralKind) -> (r: bool)
        ensures
            r == (self@ == other@),
    {
        match (self, other) {
            (LiteralKind::Simple, LiteralKind::Simple) => true,
            (LiteralKind::Lang(a), LiteralKind::Lang(b)) => *a == *b,
            (LiteralKind::Datatype(a), LiteralKind::Datatype(b)) => *a == *b,
            _ => false,
        }
    }

    /// An owned copy with the same value.
    pub fn duplicate(&self) -> (r: LiteralKind)
        ensures
            r@ == self@,
    {
        match self {
            LiteralKind::Simple => LiteralKind::Simple,
            LiteralKind::Lang(l) => LiteralKind::Lang(l.clone()),
            LiteralKind::Datatype(d) => LiteralKind::Datatype(d.clone()),
        }
    }
}

impl Term {
    /// Structural equality of terms: same variant, equal payloads.
    pub fn eq_term(&self, other: &Term) -> (r: bool)
        ensures
            r == (self@ == other@),
    {
        match (self, other) {
            (Term::Iri(a), Term::Iri(b)) => *a == *b,
            (Term::BNode(a), Term::BNode(b)) => *a == *b,
            (Term::Literal(a, ka), Term::Literal(b, kb)) => *a == *b && ka.eq_kind(kb),
            (Term::Variable(a), Term::Variable(b)) => *a == *b,
            _ => false,
        }
    }

    /// An owned copy with the same value.
    pub fn duplicate(&self) -> (r: Term)
        ensures
            r@ == self@,
    {
        match self {
            Term::Iri(s) => Term::Iri(s.clone()),
            Term::BNode(s) => Term::BNode(s.clone()),
            Term::Literal(s, k) => Term::Literal(s.clone(), k.duplicate()),
            Term::Variable(s) => Term::Variable(s.clone()),
        }
    }

    /// True for IRI terms.
    pub fn is_iri(&self) -> (r: bool)
        ensures
            r == (self@ is Iri),
    {
        match self {
            Term::Iri(_) => true,
            _ => false,
        }
    }

    /// True for blank-node terms.
    pub fn is_bnode(&self) -> (r: bool)
        ensures
            r == (self@ is BNode),
    {
        match self {
            Term::BNode(_) => true,
            _ => false,
        }
    }

    /// True for literal terms.
    pub fn is_literal(&self) -> (r: bool)
        ensures
            r == (self@ is Literal),
    {
        match self {
            Term::Literal(_, _) => true,
            _ => false,
        }
    }

    /// True for variable terms.
    pub fn is_variable(&self) -> (r: bool)
        ensures
            r == (self@ is Variable),
    {
        match self {
            Term::Variable(_) => true,
            _ => false,
        }
    }
}

/// Option-aware graph-name equality: two graph names are equal iff both are
/// the default graph, or both name equal terms.
pub fn same_graph_name(a: Option<&Term>, b: Option<&Term>) -> (r: bool)
    ensures
        r == (graph_name_ref_view(a) == graph_name_ref_view(b)),
{
    match (a, b) {
        (None, None) => true,
        (Some(ta), Some(tb)) => ta.eq_term(tb),
        _ => false,
    }
}

/// An owned copy of a borrowed graph name.
pub fn duplicate_graph_name(g: Option<&Term>) -> (r: GraphName)
    ensures
        graph_name_view(r) == graph_name_ref_view(g),
{
    match g {
        None => None,
        Some(t) => Some(t.duplicate()),
    }
}

} // verus!
