//! Exercises the term dictionary: interning, dedup, reference counting
//! and LIFO slot reuse.

use sophia::term::Term;
use sophia::term_index::TermIndexU;

fn iri(s: &str) -> Term {
    Term::Iri(String::from(s))
}

fn rdf(suffix: &str) -> Term {
    iri(&format!("http://www.w3.org/1999/02/22-rdf-syntax-ns#{}", suffix))
}

#[test]
fn test_term_index_inner() {
    let mut ti = TermIndexU::default();
    assert_eq!(ti.slot_count(), 0);

    assert_eq!(ti.get_index(&rdf("subject")), None);
    assert_eq!(ti.make_index(&rdf("subject")), 0);
    assert_eq!(ti.get_index(&rdf("subject")), Some(0));
    assert_eq!(ti.get_ref_count(0), Some(1));
    assert_eq!(ti.slot_count(), 1);

    assert_eq!(ti.get_index(&rdf("predicate")), None);
    assert_eq!(ti.make_index(&rdf("predicate")), 1);
    assert_eq!(ti.get_index(&rdf("predicate")), Some(1));
    assert_eq!(ti.get_ref_count(1), Some(1));
    assert_eq!(ti.slot_count(), 2);

    assert_eq!(ti.get_index(&rdf("object")), None);
    assert_eq!(ti.make_index(&rdf("object")), 2);
    assert_eq!(ti.get_index(&rdf("object")), Some(2));
    assert_eq!(ti.get_ref_count(2), Some(1));
    assert_eq!(ti.slot_count(), 3);

    assert_eq!(ti.make_index(&rdf("predicate")), 1);
    assert_eq!(ti.get_ref_count(1), Some(2));

    ti.inc_ref(1);
    assert_eq!(ti.get_ref_count(1), Some(3));

    ti.dec_ref(1);
    assert_eq!(ti.get_ref_count(1), Some(2));

    ti.dec_ref(1);
    assert_eq!(ti.get_ref_count(1), Some(1));

    ti.dec_ref(1);
    assert_eq!(ti.get_index(&rdf("predicate")), None);
    assert_eq!(ti.get_ref_count(1), None);

    ti.dec_ref(0);
    assert_eq!(ti.get_index(&rdf("subject")), None);
    assert_eq!(ti.get_ref_count(0), None);

    // the freed slots are reused LIFO: slot 0 was freed last
    assert_eq!(ti.make_index(&rdf("type")), 0);
    assert_eq!(ti.get_ref_count(0), Some(1));
    assert_eq!(ti.slot_count(), 3);

    // re-interning the first term now ends up in a different place
    assert_eq!(ti.make_index(&rdf("subject")), 1);
    assert_eq!(ti.get_ref_count(1), Some(1));
    assert_eq!(ti.slot_count(), 3);

    assert_eq!(ti.make_index(&rdf("Property")), 3);
    assert_eq!(ti.get_ref_count(3), Some(1));
    assert_eq!(ti.slot_count(), 4);
}

#[test]
fn test_intern_dedup() {
    // interning a term twice returns the same handle both times, its
    // count is two, and the dictionary does not grow on the second call
    let mut ti = TermIndexU::new();
    let t = iri("http://example.org/ns/C1");
    let i1 = ti.make_index(&t);
    let grown = ti.slot_count();
    let i2 = ti.make_index(&t);
    assert_eq!(i1, i2);
    assert_eq!(ti.get_ref_count(i1), Some(2));
    assert_eq!(ti.slot_count(), grown);
}

#[test]
fn test_slot_reuse_resolves_new_term_only() {
    // freeing a slot and interning an unrelated term reuses the slot's
    // handle; resolving it afterwards yields the new term, never the old
    let mut ti = TermIndexU::new();
    let old_term = iri("http://example.org/ns/I1A");
    let new_term = iri("http://example.org/ns/I2B");
    let i = ti.make_index(&old_term);
    ti.dec_ref(i);
    let j = ti.make_index(&new_term);
    assert_eq!(i, j);
    let got = ti.get_term(j).unwrap();
    assert!(got.eq_term(&new_term));
    assert!(!got.eq_term(&old_term));
    assert_eq!(ti.get_index(&old_term), None);
}

#[test]
fn test_get_term_out_of_range() {
    let ti = TermIndexU::new();
    assert!(ti.get_term(0).is_none());
    assert!(ti.get_ref_count(7).is_none());
}
