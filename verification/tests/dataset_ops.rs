//! Exercises the quad store: simple mutations, set semantics, the bulk
//! drains, and the term collectors over the seventeen-quad fixture.

use sophia::dataset::{HashDataset, Quad};
use sophia::fixtures::{make_quad_source, no_quad, some_quads};
use sophia::term::Term;

fn iri(s: &str) -> Term {
    Term::Iri(String::from(s))
}

fn ns(suffix: &str) -> Term {
    iri(&format!("http://example.org/ns/{}", suffix))
}

fn rdf(suffix: &str) -> Term {
    iri(&format!("http://www.w3.org/1999/02/22-rdf-syntax-ns#{}", suffix))
}

fn rdfs(suffix: &str) -> Term {
    iri(&format!("http://www.w3.org/2000/01/rdf-schema#{}", suffix))
}

fn fixture() -> HashDataset {
    HashDataset::from_quad_source(some_quads()).unwrap()
}

fn contains_term(v: &[Term], t: &Term) -> bool {
    v.iter().any(|u| u.eq_term(t))
}

#[test]
fn test_simple_mutations() {
    let mut d = HashDataset::from_quad_source(no_quad()).unwrap();
    assert_eq!(d.len(), 0);
    assert!(d.insert_quad(&ns("C1"), &rdf("type"), &rdfs("Class"), None));
    assert_eq!(d.len(), 1);
    assert!(d.insert_quad(&ns("C1"), &rdfs("subClassOf"), &ns("C2"), Some(&ns("G1"))));
    assert_eq!(d.len(), 2);
    assert!(d.remove_quad(&ns("C1"), &rdf("type"), &rdfs("Class"), None));
    assert_eq!(d.len(), 1);
    assert!(d.remove_quad(&ns("C1"), &rdfs("subClassOf"), &ns("C2"), Some(&ns("G1"))));
    assert_eq!(d.len(), 0);
}

#[test]
fn test_no_duplicate() {
    // inserting an already-present quad reports "unchanged" and leaves
    // the size alone; removing an absent quad reports "unchanged" too
    let mut d = HashDataset::new();
    assert!(d.insert_quad(&ns("C1"), &rdf("type"), &rdfs("Class"), None));
    assert_eq!(d.len(), 1);
    assert!(!d.insert_quad(&ns("C1"), &rdf("type"), &rdfs("Class"), None));
    assert_eq!(d.len(), 1);
    assert!(d.remove_quad(&ns("C1"), &rdf("type"), &rdfs("Class"), None));
    assert_eq!(d.len(), 0);
    assert!(!d.remove_quad(&ns("C1"), &rdf("type"), &rdfs("Class"), None));
    assert_eq!(d.len(), 0);
}

#[test]
fn test_different_graphs_do_not_count_as_duplicate() {
    let mut d = HashDataset::new();
    assert!(d.insert_quad(&ns("C1"), &rdf("type"), &rdfs("Class"), None));
    assert_eq!(d.len(), 1);
    assert!(d.insert_quad(&ns("C1"), &rdf("type"), &rdfs("Class"), Some(&ns("G1"))));
    assert_eq!(d.len(), 2);
    assert!(d.remove_quad(&ns("C1"), &rdf("type"), &rdfs("Class"), None));
    assert_eq!(d.len(), 1);
    assert!(d.remove_quad(&ns("C1"), &rdf("type"), &rdfs("Class"), Some(&ns("G1"))));
    assert_eq!(d.len(), 0);
}

#[test]
fn test_x_all_mutations() {
    // inserting a source of two distinct quads returns 2; inserting the
    // identical quads again returns 0; removing them returns 2, then 0
    let mut d = HashDataset::from_quad_source(no_quad()).unwrap();
    assert_eq!(d.len(), 0);
    assert_eq!(d.insert_all(make_quad_source()).unwrap(), 2);
    assert_eq!(d.len(), 2, "after insert_all");
    assert_eq!(d.insert_all(make_quad_source()).unwrap(), 0);
    assert_eq!(d.len(), 2, "after insert_all again");
    assert_eq!(d.remove_all(make_quad_source()).unwrap(), 2);
    assert_eq!(d.len(), 0, "after remove_all");
    assert_eq!(d.remove_all(make_quad_source()).unwrap(), 0);
    assert_eq!(d.len(), 0, "after remove_all again");
}

#[test]
fn test_fixture_loads_all_quads() {
    let d = fixture();
    assert_eq!(d.len(), 17);
    let quads: Vec<Quad> = d.quads();
    assert_eq!(quads.len(), 17);
}

#[test]
fn test_contains() {
    let d = fixture();
    assert!(d.contains(&ns("C2"), &rdfs("subClassOf"), &ns("C1"), Some(&ns("G1"))));
    assert!(!d.contains(&ns("C1"), &rdfs("subClassOf"), &ns("C2"), Some(&ns("G1"))));
    assert!(d.contains(&ns("C1"), &rdf("type"), &rdfs("Class"), None));
    assert!(!d.contains(&ns("P1"), &rdf("type"), &rdfs("Class"), None));
}

#[test]
fn test_subjects() {
    let d = fixture();
    let subjects = d.subjects();
    assert_eq!(subjects.len(), 8);
    for name in ["C1", "C2", "P1", "P2", "I1A", "I1B", "I2A", "I2B"] {
        assert!(contains_term(&subjects, &ns(name)));
    }
}

#[test]
fn test_predicates() {
    // the fixture uses exactly six distinct predicates
    let d = fixture();
    let predicates = d.predicates();
    assert_eq!(predicates.len(), 6);
    assert!(contains_term(&predicates, &rdf("type")));
    assert!(contains_term(&predicates, &rdfs("subClassOf")));
    assert!(contains_term(&predicates, &rdfs("domain")));
    assert!(contains_term(&predicates, &rdfs("range")));
    assert!(contains_term(&predicates, &ns("P1")));
    assert!(contains_term(&predicates, &ns("P2")));
}

#[test]
fn test_objects() {
    let d = fixture();
    let objects = d.objects();
    assert_eq!(objects.len(), 6);
    assert!(contains_term(&objects, &rdf("Property")));
    assert!(contains_term(&objects, &rdfs("Class")));
    assert!(contains_term(&objects, &ns("C1")));
    assert!(contains_term(&objects, &ns("C2")));
    assert!(contains_term(&objects, &ns("I2A")));
    assert!(contains_term(&objects, &ns("I2B")));
}

#[test]
fn test_graph_names() {
    // the fixture spans the default graph and exactly two named graphs
    let d = fixture();
    let graph_names = d.graph_names();
    assert_eq!(graph_names.len(), 2);
    assert!(contains_term(&graph_names, &ns("G1")));
    assert!(contains_term(&graph_names, &ns("G2")));
}

#[test]
fn test_iris() {
    let d = HashDataset::from_quad_source(
        sophia::fixtures::generalized_node_types_quads(),
    ).unwrap();
    let iris = d.iris();
    assert_eq!(iris.len(), 2);
    assert!(contains_term(&iris, &rdf("type")));
    assert!(contains_term(&iris, &rdf("Property")));
}

#[test]
fn test_iris_strict() {
    let d = HashDataset::from_quad_source(sophia::fixtures::strict_node_types_quads()).unwrap();
    let iris = d.iris();
    assert_eq!(iris.len(), 2);
}

#[test]
fn test_bnodes() {
    let d = HashDataset::from_quad_source(
        sophia::fixtures::generalized_node_types_quads(),
    ).unwrap();
    let bnodes = d.bnodes();
    assert_eq!(bnodes.len(), 2);
    assert!(contains_term(&bnodes, &Term::BNode(String::from("1"))));
    assert!(contains_term(&bnodes, &Term::BNode(String::from("2"))));
}

#[test]
fn test_literals() {
    let d = HashDataset::from_quad_source(
        sophia::fixtures::generalized_node_types_quads(),
    ).unwrap();
    let literals = d.literals();
    assert_eq!(literals.len(), 3);
}

#[test]
fn test_variables() {
    let gen = HashDataset::from_quad_source(
        sophia::fixtures::generalized_node_types_quads(),
    ).unwrap();
    let variables = gen.variables();
    assert_eq!(variables.len(), 3);
    assert!(contains_term(&variables, &Term::Variable(String::from("v1"))));
    assert!(contains_term(&variables, &Term::Variable(String::from("v2"))));
    assert!(contains_term(&variables, &Term::Variable(String::from("v3"))));

    let strict = HashDataset::from_quad_source(
        sophia::fixtures::strict_node_types_quads(),
    ).unwrap();
    assert_eq!(strict.variables().len(), 0);
}

#[test]
fn test_refcounts_release_dictionary_entries() {
    // after every quad naming a term is removed, the term's slot is
    // freed and a whole round trip leaves the store empty
    let mut d = HashDataset::new();
    assert!(d.insert_quad(&ns("I1A"), &ns("P1"), &ns("I2A"), None));
    assert!(d.insert_quad(&ns("I1A"), &ns("P1"), &ns("I2B"), None));
    assert!(d.remove_quad(&ns("I1A"), &ns("P1"), &ns("I2A"), None));
    // shared terms stay resolvable through the remaining quad
    assert!(d.contains(&ns("I1A"), &ns("P1"), &ns("I2B"), None));
    assert!(!d.contains(&ns("I1A"), &ns("P1"), &ns("I2A"), None));
    assert!(d.remove_quad(&ns("I1A"), &ns("P1"), &ns("I2B"), None));
    assert!(d.is_empty());
}
