//! Exercises the streaming protocol: draining, the two failure
//! domains, and short-circuiting on a sink condition.

use sophia::dataset::{HashDataset, Quad};
use sophia::stream::{
    CappedCollector, QuadCollector, QuadSource, StreamError, VecQuadSource,
};
use sophia::term::Term;

fn iri(s: &str) -> Term {
    Term::Iri(String::from(s))
}

fn ns(suffix: &str) -> Term {
    iri(&format!("http://example.org/ns/{}", suffix))
}

fn quad_n(n: u32) -> Quad {
    Quad {
        s: ns(&format!("S{}", n)),
        p: ns(&format!("P{}", n)),
        o: ns(&format!("O{}", n)),
        g: None,
    }
}

#[test]
fn test_drain_collects_everything() {
    let quads = vec![quad_n(1), quad_n(2), quad_n(3)];
    let mut src: VecQuadSource<u32> = VecQuadSource::from_quads(quads);
    let mut sink = QuadCollector::new();
    assert!(src.try_for_each_quad(&mut sink).is_ok());
    assert_eq!(sink.items.len(), 3);
}

#[test]
fn test_sink_short_circuit() {
    // a drain whose sink fails on the third item surfaces a sink-domain
    // failure, and the sink holds the first two items only
    let quads = vec![quad_n(1), quad_n(2), quad_n(3), quad_n(4), quad_n(5)];
    let mut src: VecQuadSource<u32> = VecQuadSource::from_quads(quads);
    let mut sink = CappedCollector::new(2);
    let r = src.try_for_each_quad(&mut sink);
    match r {
        Err(e) => assert!(e.is_sink_error()),
        Ok(()) => panic!("the drain should have failed"),
    }
    assert_eq!(sink.items.len(), 2);
    assert!(sink.items[0].s().eq_term(&ns("S1")));
    assert!(sink.items[1].s().eq_term(&ns("S2")));
}

#[test]
fn test_source_failure_surfaces_after_prefix() {
    // a source failing after its second item: the store reflects the
    // two quads received before the failure, and the error keeps its
    // source domain and payload
    let items: Vec<Result<Quad, u32>> = vec![
        Ok(quad_n(1)),
        Ok(quad_n(2)),
        Err(42),
        Ok(quad_n(3)),
    ];
    let src = VecQuadSource::new(items);
    let mut d = HashDataset::new();
    let r = d.insert_all(src);
    match r {
        Err(StreamError::SourceError(e)) => assert_eq!(e, 42),
        _ => panic!("the drain should have failed on the source side"),
    }
    assert_eq!(d.len(), 2);
    assert!(d.contains(&ns("S1"), &ns("P1"), &ns("O1"), None));
    assert!(d.contains(&ns("S2"), &ns("P2"), &ns("O2"), None));
    assert!(!d.contains(&ns("S3"), &ns("P3"), &ns("O3"), None));
}

#[test]
fn test_insert_all_counts_changes_only() {
    let mut d = HashDataset::new();
    let quads = vec![quad_n(1), quad_n(1), quad_n(2)];
    let src: VecQuadSource<u32> = VecQuadSource::from_quads(quads);
    assert_eq!(d.insert_all(src).unwrap(), 2);
    assert_eq!(d.len(), 2);
}

#[test]
fn test_collect_quads() {
    let quads = vec![quad_n(1), quad_n(2)];
    let src: VecQuadSource<u32> = VecQuadSource::from_quads(quads);
    let d = sophia::dataset::collect_quads(src).unwrap();
    assert_eq!(d.len(), 2);
}

#[test]
fn test_add_to_dataset() {
    let mut d = HashDataset::new();
    let quads = vec![quad_n(1), quad_n(2)];
    let src: VecQuadSource<u32> = VecQuadSource::from_quads(quads);
    assert_eq!(sophia::dataset::add_to_dataset(src, &mut d).unwrap(), 2);
    assert_eq!(d.len(), 2);
}

#[test]
fn test_size_hint_default_is_sound() {
    let quads = vec![quad_n(1), quad_n(2)];
    let src: VecQuadSource<u32> = VecQuadSource::from_quads(quads);
    let (lo, hi) = src.size_hint_quads();
    assert_eq!(lo, 0);
    assert!(hi.is_none());
}

#[test]
fn test_for_each_quad_with_total_sink() {
    let quads = vec![quad_n(1), quad_n(2), quad_n(3)];
    let mut src: VecQuadSource<u32> = VecQuadSource::from_quads(quads);
    let mut sink = QuadCollector::new();
    src.for_each_quad(&mut sink).unwrap();
    assert_eq!(sink.items.len(), 3);
}

#[test]
fn test_source_failing_at_front_feeds_nothing() {
    let items: Vec<Result<Quad, u32>> = vec![Err(7), Ok(quad_n(1))];
    let src = VecQuadSource::new(items);
    let mut d = HashDataset::new();
    match d.insert_all(src) {
        Err(StreamError::SourceError(e)) => assert_eq!(e, 7),
        _ => panic!("the drain should have failed on the source side"),
    }
    assert_eq!(d.len(), 0);
}

#[test]
fn test_error_domain_accessors() {
    let source: StreamError<u32, u32> = StreamError::SourceError(1);
    assert!(source.is_source_error());
    assert!(!source.is_sink_error());
    let sink: StreamError<u32, u32> = StreamError::SinkError(2);
    assert!(sink.is_sink_error());
    assert!(!sink.is_source_error());
}

