//! Exercises the triple store: the optimistic insert/rollback
//! protocol, removal, scanning, and collection from a triple source.

use sophia::graph::{HashGraph, Triple, VecTripleSource};
use sophia::term::Term;

fn iri(s: &str) -> Term {
    Term::Iri(String::from(s))
}

fn ns(suffix: &str) -> Term {
    iri(&format!("http://example.org/ns/{}", suffix))
}

fn triple(s: &str, p: &str, o: &str) -> Triple {
    Triple { s: ns(s), p: ns(p), o: ns(o) }
}

#[test]
fn test_insert_indexed_and_rollback() {
    let mut g = HashGraph::new();
    let first = g.insert_indexed(&ns("C1"), &ns("P1"), &ns("C2"));
    assert!(first.is_some());
    assert_eq!(g.len(), 1);
    // a duplicate insertion is rolled back: no change, same handles
    let dup = g.insert_indexed(&ns("C1"), &ns("P1"), &ns("C2"));
    assert!(dup.is_none());
    assert_eq!(g.len(), 1);
    let ix = first.unwrap();
    assert!(g.get_term(ix[0]).unwrap().eq_term(&ns("C1")));
    assert!(g.get_term(ix[1]).unwrap().eq_term(&ns("P1")));
    assert!(g.get_term(ix[2]).unwrap().eq_term(&ns("C2")));
}

#[test]
fn test_remove_indexed_releases_terms() {
    let mut g = HashGraph::new();
    g.insert_indexed(&ns("C1"), &ns("P1"), &ns("C2"));
    g.insert_indexed(&ns("C1"), &ns("P1"), &ns("C3"));
    assert_eq!(g.len(), 2);
    let removed = g.remove_indexed(&ns("C1"), &ns("P1"), &ns("C3"));
    assert!(removed.is_some());
    assert_eq!(g.len(), 1);
    // the shared terms stay interned, the orphaned one is released
    assert!(g.get_index(&ns("C1")).is_some());
    assert!(g.get_index(&ns("C3")).is_none());
    // removing an absent triple reports no change
    assert!(g.remove_indexed(&ns("C1"), &ns("P1"), &ns("C3")).is_none());
    assert_eq!(g.len(), 1);
}

#[test]
fn test_triples_scan() {
    let mut g = HashGraph::new();
    g.insert_indexed(&ns("C1"), &ns("P1"), &ns("C2"));
    g.insert_indexed(&ns("C2"), &ns("P2"), &ns("C3"));
    let all = g.triples();
    assert_eq!(all.len(), 2);
    assert!(all[0].s().eq_term(&ns("C1")));
    assert!(all[1].o().eq_term(&ns("C3")));
}

#[test]
fn test_from_triple_source() {
    let v = vec![
        triple("C1", "P1", "C2"),
        triple("C2", "P2", "C3"),
        triple("C1", "P1", "C2"),
    ];
    let src = VecTripleSource::from_triples(v);
    let g = HashGraph::from_triple_source(src).unwrap();
    // the duplicate entry does not enter the set store
    assert_eq!(g.len(), 2);
    assert!(!g.is_empty());
}

#[test]
fn test_empty_graph() {
    let g = HashGraph::new();
    assert_eq!(g.len(), 0);
    assert!(g.is_empty());
    let g2 = HashGraph::with_capacity(8);
    assert!(g2.is_empty());
}

#[test]
fn test_graph_shrink_keeps_content() {
    let mut g = HashGraph::new();
    g.insert_indexed(&ns("C1"), &ns("P1"), &ns("C2"));
    g.shrink_to_fit();
    assert_eq!(g.len(), 1);
    assert!(g.get_index(&ns("C1")).is_some());
}
