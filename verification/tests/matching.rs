//! Exercises the per-position scans, the pattern dispatcher, and the
//! matching mutations over the seventeen-quad fixture.

use sophia::dataset::{HashDataset, Quad};
use sophia::fixtures::some_quads;
use sophia::matcher::{GraphNameMatcher, TermMatcher};
use sophia::term::{same_graph_name, Term};

fn iri(s: &str) -> Term {
    Term::Iri(String::from(s))
}

fn ns(suffix: &str) -> Term {
    iri(&format!("http://example.org/ns/{}", suffix))
}

fn rdf(suffix: &str) -> Term {
    iri(&format!("http://www.w3.org/1999/02/22-rdf-syntax-ns#{}", suffix))
}

fn rdfs(suffix: &str) -> Term {
    iri(&format!("http://www.w3.org/2000/01/rdf-schema#{}", suffix))
}

fn fixture() -> HashDataset {
    HashDataset::from_quad_source(some_quads()).unwrap()
}

fn contains_quad(v: &[Quad], s: &Term, p: &Term, o: &Term, g: Option<&Term>) -> bool {
    v.iter().any(|q| {
        q.s().eq_term(s) && q.p().eq_term(p) && q.o().eq_term(o) && same_graph_name(q.g(), g)
    })
}

fn same_quads(a: &[Quad], b: &[Quad]) -> bool {
    a.len() == b.len()
        && a.iter().zip(b.iter()).all(|(x, y)| {
            x.s().eq_term(y.s())
                && x.p().eq_term(y.p())
                && x.o().eq_term(y.o())
                && same_graph_name(x.g(), y.g())
        })
}

#[test]
fn test_quads_with_s() {
    let d = fixture();
    let v = d.quads_with_s(&ns("C2"));
    assert_eq!(v.len(), 2);
    assert!(contains_quad(&v, &ns("C2"), &rdf("type"), &rdfs("Class"), None));
    assert!(!contains_quad(&v, &ns("C2"), &rdf("type"), &rdfs("Class"), Some(&ns("G1"))));
}

#[test]
fn test_quads_with_p() {
    let d = fixture();
    let v = d.quads_with_p(&rdfs("subClassOf"));
    assert_eq!(v.len(), 1);
    assert!(contains_quad(&v, &ns("C2"), &rdfs("subClassOf"), &ns("C1"), Some(&ns("G1"))));
}

#[test]
fn test_quads_with_o() {
    let d = fixture();
    let v = d.quads_with_o(&ns("I2B"));
    assert_eq!(v.len(), 2);
    assert!(contains_quad(&v, &ns("I1B"), &ns("P1"), &ns("I2B"), Some(&ns("G2"))));
}

#[test]
fn test_quads_with_g() {
    // exactly six quads stand in the named graph G1
    let d = fixture();
    let v = d.quads_with_g(Some(&ns("G1")));
    assert_eq!(v.len(), 6);
    assert!(contains_quad(&v, &ns("C1"), &rdf("type"), &rdfs("Class"), Some(&ns("G1"))));
    let dg = d.quads_with_g(None);
    assert_eq!(dg.len(), 4);
}

#[test]
fn test_quads_with_sp() {
    let d = fixture();
    let v = d.quads_with_sp(&ns("C2"), &rdf("type"));
    assert_eq!(v.len(), 1);
}

#[test]
fn test_quads_with_so() {
    let d = fixture();
    let v = d.quads_with_so(&ns("C2"), &ns("C1"));
    assert_eq!(v.len(), 1);
}

#[test]
fn test_quads_with_po() {
    let d = fixture();
    let v = d.quads_with_po(&rdf("type"), &rdfs("Class"));
    assert_eq!(v.len(), 3);
}

#[test]
fn test_quads_with_sg() {
    let d = fixture();
    let v = d.quads_with_sg(&ns("C2"), Some(&ns("G1")));
    assert_eq!(v.len(), 1);
}

#[test]
fn test_quads_with_pg() {
    let d = fixture();
    let v = d.quads_with_pg(&rdf("type"), Some(&ns("G1")));
    assert_eq!(v.len(), 1);
}

#[test]
fn test_quads_with_og() {
    let d = fixture();
    let v = d.quads_with_og(&ns("C1"), Some(&ns("G1")));
    assert_eq!(v.len(), 2);
}

#[test]
fn test_quads_with_spo() {
    let d = fixture();
    let v = d.quads_with_spo(&ns("C1"), &rdf("type"), &rdfs("Class"));
    assert_eq!(v.len(), 2);
}

#[test]
fn test_quads_with_spg() {
    let d = fixture();
    let v = d.quads_with_spg(&ns("C1"), &rdf("type"), None);
    assert_eq!(v.len(), 1);
}

#[test]
fn test_quads_with_sog() {
    let d = fixture();
    let v = d.quads_with_sog(&ns("C1"), &rdfs("Class"), None);
    assert_eq!(v.len(), 1);
}

#[test]
fn test_quads_with_pog() {
    let d = fixture();
    let v = d.quads_with_pog(&rdf("type"), &rdfs("Class"), None);
    assert_eq!(v.len(), 2);
}

#[test]
fn test_quads_with_spog() {
    let d = fixture();
    let v = d.quads_with_spog(&ns("C1"), &rdf("type"), &rdfs("Class"), None);
    assert_eq!(v.len(), 1);
}

#[test]
fn test_quads_matching() {
    let d = fixture();
    let ms = TermMatcher::Any;
    let mp = TermMatcher::OneOf(vec![rdf("type"), rdfs("domain")]);
    let mo = TermMatcher::OneOf(vec![ns("C1"), ns("C2")]);
    let mg = GraphNameMatcher::AnyNamed;
    let v = d.quads_matching(&ms, &mp, &mo, &mg);
    assert_eq!(v.len(), 6);
    assert!(contains_quad(&v, &ns("P1"), &rdfs("domain"), &ns("C1"), Some(&ns("G1"))));
    assert!(contains_quad(&v, &ns("P2"), &rdfs("domain"), &ns("C2"), Some(&ns("G1"))));
    assert!(contains_quad(&v, &ns("I1A"), &rdf("type"), &ns("C1"), Some(&ns("G2"))));
    assert!(contains_quad(&v, &ns("I2A"), &rdf("type"), &ns("C2"), Some(&ns("G2"))));
    assert!(!contains_quad(&v, &ns("C2"), &rdfs("subClassOf"), &ns("C1"), Some(&ns("G1"))));
    assert!(!contains_quad(&v, &ns("C1"), &rdf("type"), &rdfs("Class"), Some(&ns("G1"))));
}

#[test]
fn test_dispatch_equivalence() {
    // for every combination of bound and unbound positions, the
    // dispatcher's result equals filtering a full scan by the matchers
    let d = fixture();
    let all = d.quads();
    for mask in 0u32..16 {
        let ms = if mask & 1 != 0 { TermMatcher::Is(ns("C1")) } else { TermMatcher::Any };
        let mp = if mask & 2 != 0 { TermMatcher::Is(rdf("type")) } else { TermMatcher::Any };
        let mo = if mask & 4 != 0 { TermMatcher::Is(rdfs("Class")) } else { TermMatcher::Any };
        let mg = if mask & 8 != 0 {
            GraphNameMatcher::Is(Some(ns("G1")))
        } else {
            GraphNameMatcher::Any
        };
        let dispatched = d.quads_matching(&ms, &mp, &mo, &mg);
        let filtered: Vec<Quad> = all
            .iter()
            .filter(|q| {
                ms.matches(q.s()) && mp.matches(q.p()) && mo.matches(q.o()) && mg.matches(q.g())
            })
            .map(|q| q.duplicate())
            .collect();
        assert!(same_quads(&dispatched, &filtered), "combination {}", mask);
    }
}

#[test]
fn test_dispatch_equivalence_with_set_matchers() {
    // the same equivalence when positions hold finite-set and
    // named-graph matchers instead of single constants
    let d = fixture();
    let all = d.quads();
    let subjects = [
        TermMatcher::Any,
        TermMatcher::OneOf(vec![ns("C1"), ns("I1A")]),
        TermMatcher::OneOf(vec![ns("C2")]),
    ];
    let graphs = [
        GraphNameMatcher::Any,
        GraphNameMatcher::AnyNamed,
        GraphNameMatcher::Is(None),
        GraphNameMatcher::OneOf(vec![Some(ns("G1")), None]),
    ];
    for ms in subjects.iter() {
        for mg in graphs.iter() {
            let mp = TermMatcher::Any;
            let mo = TermMatcher::Any;
            let dispatched = d.quads_matching(ms, &mp, &mo, mg);
            let filtered: Vec<Quad> = all
                .iter()
                .filter(|q| ms.matches(q.s()) && mg.matches(q.g()))
                .map(|q| q.duplicate())
                .collect();
            assert!(same_quads(&dispatched, &filtered));
        }
    }
}

#[test]
fn test_remove_matching() {
    // removing every quad typing something as C1 or C2 leaves 13 quads
    let mut d = fixture();
    let ms = TermMatcher::Any;
    let mp = TermMatcher::Is(rdf("type"));
    let mo = TermMatcher::OneOf(vec![ns("C1"), ns("C2")]);
    let mg = GraphNameMatcher::Any;
    let removed = d.remove_matching(&ms, &mp, &mo, &mg);
    assert_eq!(removed, 4);
    assert_eq!(d.len(), 13);
}

#[test]
fn test_retain_matching() {
    // keeping only those quads leaves the 4 of them
    let mut d = fixture();
    let ms = TermMatcher::Any;
    let mp = TermMatcher::Is(rdf("type"));
    let mo = TermMatcher::OneOf(vec![ns("C1"), ns("C2")]);
    let mg = GraphNameMatcher::Any;
    d.retain_matching(&ms, &mp, &mo, &mg);
    assert_eq!(d.len(), 4);
}

#[test]
fn test_matcher_constant() {
    let one = TermMatcher::OneOf(vec![ns("C1")]);
    assert!(one.constant().is_some());
    let two = TermMatcher::OneOf(vec![ns("C1"), ns("C2")]);
    assert!(two.constant().is_none());
    assert!(TermMatcher::Any.constant().is_none());
    let named = GraphNameMatcher::AnyNamed;
    assert!(named.constant().is_none());
    let dg = GraphNameMatcher::Is(None);
    assert!(dg.constant().is_some());
}
