//! Quad sources with fixed content, used to exercise store
//! implementations: an empty source, a seventeen-quad source spanning
//! two named graphs and the default graph, two five-quad sources with
//! varied node kinds, and a two-quad source. Each builder's contract
//! states the exact quads it yields, in order, through the spec
//! functions below.

use vstd::prelude::*;
use crate::dataset::{quad_value, NeverError, Quad, QuadV};
use crate::term::{graph_name_view, GraphName, LiteralKind, LiteralKindV, Term, TermV};
use crate::stream::{QuadSource, VecQuadSource};

verus! {

/// The `rdf:type` IRI term.
pub open spec fn v_rdf_type() -> TermV {
    TermV::Iri("http://www.w3.org/1999/02/22-rdf-syntax-ns#type"@)
}

/// The `rdf:Property` IRI term.
pub open spec fn v_rdf_property() -> TermV {
    TermV::Iri("http://www.w3.org/1999/02/22-rdf-syntax-ns#Property"@)
}

/// The `rdfs:Class` IRI term.
pub open spec fn v_rdfs_class() -> TermV {
    TermV::Iri("http://www.w3.org/2000/01/rdf-schema#Class"@)
}

/// The `rdfs:subClassOf` IRI term.
pub open spec fn v_rdfs_sub_class_of() -> TermV {
    TermV::Iri("http://www.w3.org/2000/01/rdf-schema#subClassOf"@)
}

/// The `rdfs:domain` IRI term.
pub open spec fn v_rdfs_domain() -> TermV {
    TermV::Iri("http://www.w3.org/2000/01/rdf-schema#domain"@)
}

/// The `rdfs:range` IRI term.
pub open spec fn v_rdfs_range() -> TermV {
    TermV::Iri("http://www.w3.org/2000/01/rdf-schema#range"@)
}

/// The first fixture class.
pub open spec fn v_c1() -> TermV {
    TermV::Iri("http://example.org/ns/C1"@)
}

/// The second fixture class.
pub open spec fn v_c2() -> TermV {
    TermV::Iri("http://example.org/ns/C2"@)
}

/// The first fixture property.
pub open spec fn v_p1() -> TermV {
    TermV::Iri("http://example.org/ns/P1"@)
}

/// The second fixture property.
pub open spec fn v_p2() -> TermV {
    TermV::Iri("http://example.org/ns/P2"@)
}

/// The first instance of the first class.
pub open spec fn v_i1a() -> TermV {
    TermV::Iri("http://example.org/ns/I1A"@)
}

/// The second instance of the first class.
pub open spec fn v_i1b() -> TermV {
    TermV::Iri("http://example.org/ns/I1B"@)
}

/// The first instance of the second class.
pub open spec fn v_i2a() -> TermV {
    TermV::Iri("http://example.org/ns/I2A"@)
}

/// The second instance of the second class.
pub open spec fn v_i2b() -> TermV {
    TermV::Iri("http://example.org/ns/I2B"@)
}

/// The first named graph.
pub open spec fn v_g1() -> TermV {
    TermV::Iri("http://example.org/ns/G1"@)
}

/// The second named graph.
pub open spec fn v_g2() -> TermV {
    TermV::Iri("http://example.org/ns/G2"@)
}

/// The seventeen quads of the class/property/instance fixture: four in
/// the default graph, six in `G1`, seven in `G2`.
pub open spec fn some_quads_fixture() -> Seq<QuadV> {
    seq![
        quad_value(v_c1(), v_rdf_type(), v_rdfs_class(), None),
        quad_value(v_c1(), v_rdf_type(), v_rdfs_class(), Some(v_g1())),
        quad_value(v_c2(), v_rdf_type(), v_rdfs_class(), None),
        quad_value(v_c2(), v_rdfs_sub_class_of(), v_c1(), Some(v_g1())),
        quad_value(v_p1(), v_rdf_type(), v_rdf_property(), None),
        quad_value(v_p1(), v_rdfs_domain(), v_c1(), Some(v_g1())),
        quad_value(v_p1(), v_rdfs_range(), v_c2(), Some(v_g1())),
        quad_value(v_p2(), v_rdf_type(), v_rdf_property(), None),
        quad_value(v_p2(), v_rdfs_domain(), v_c2(), Some(v_g1())),
        quad_value(v_p2(), v_rdfs_range(), v_c2(), Some(v_g1())),
        quad_value(v_i1a(), v_rdf_type(), v_c1(), Some(v_g2())),
        quad_value(v_i1b(), v_rdf_type(), v_c1(), Some(v_g2())),
        quad_value(v_i2a(), v_rdf_type(), v_c2(), Some(v_g2())),
        quad_value(v_i2b(), v_rdf_type(), v_c2(), Some(v_g2())),
        quad_value(v_i1a(), v_p1(), v_i2a(), Some(v_g2())),
        quad_value(v_i1b(), v_p1(), v_i2b(), Some(v_g2())),
        quad_value(v_i2a(), v_p2(), v_i2b(), Some(v_g2())),
    ]
}

/// The five quads keeping the strict positions of each node kind.
pub open spec fn strict_node_types_fixture() -> Seq<QuadV> {
    seq![
        quad_value(v_rdf_type(), v_rdf_type(), v_rdf_property(), Some(v_rdf_type())),
        quad_value(
            TermV::BNode("1"@),
            v_rdf_type(),
            TermV::Literal("lit1"@, LiteralKindV::Simple),
            Some(TermV::BNode("2"@)),
        ),
        quad_value(TermV::BNode("2"@), v_rdf_type(), TermV::BNode("1"@), None),
        quad_value(
            TermV::BNode("2"@),
            v_rdf_type(),
            TermV::Literal("lit2"@, LiteralKindV::Simple),
            None,
        ),
        quad_value(
            TermV::BNode("2"@),
            v_rdf_type(),
            TermV::Literal("lit2"@, LiteralKindV::Lang("en"@)),
            None,
        ),
    ]
}

/// The five quads using every node kind in every position.
pub open spec fn generalized_node_types_fixture() -> Seq<QuadV> {
    seq![
        quad_value(v_rdf_type(), v_rdf_type(), v_rdf_property(), Some(v_rdf_type())),
        quad_value(
            TermV::BNode("1"@),
            TermV::BNode("2"@),
            TermV::BNode("1"@),
            Some(TermV::BNode("2"@)),
        ),
        quad_value(
            TermV::Literal("lit2"@, LiteralKindV::Simple),
            TermV::Literal("lit1"@, LiteralKindV::Simple),
            TermV::Literal("lit1"@, LiteralKindV::Simple),
            Some(TermV::Literal("lit2"@, LiteralKindV::Simple)),
        ),
        quad_value(
            TermV::Variable("v1"@),
            TermV::Variable("v2"@),
            TermV::Variable("v3"@),
            Some(TermV::Variable("v3"@)),
        ),
        quad_value(
            TermV::BNode("2"@),
            TermV::Variable("v1"@),
            TermV::Literal("lit2"@, LiteralKindV::Lang("en"@)),
            None,
        ),
    ]
}

/// The two quads of the small insertion fixture.
pub open spec fn make_quad_source_fixture() -> Seq<QuadV> {
    seq![
        quad_value(v_c1(), v_rdf_type(), v_rdfs_class(), Some(v_g1())),
        quad_value(v_c1(), v_rdfs_sub_class_of(), v_c2(), Some(v_g1())),
    ]
}

fn iri(s: &str) -> (t: Term)
    ensures
        t@ == TermV::Iri(s@),
{
    Term::Iri(s.to_owned())
}

fn quad(s: Term, p: Term, o: Term, g: GraphName) -> (q: Quad)
    ensures
        q@ == quad_value(s@, p@, o@, graph_name_view(g)),
{
    Quad { s, p, o, g }
}

/// A quad source that yields nothing.
pub fn no_quad() -> (r: VecQuadSource<NeverError>)
    ensures
        r.pending().len() == 0,
        !r.will_fail(),
{
    VecQuadSource::from_quads(Vec::new())
}

/// A seventeen-quad source over two classes, two properties and four
/// instances, spanning the default graph and the two named graphs `G1`
/// and `G2`; it yields exactly the quads of `some_quads_fixture`, in
/// order.
pub fn some_quads() -> (r: VecQuadSource<NeverError>)
    ensures
        r.pending() == some_quads_fixture(),
        r.pending().len() == 17,
        !r.will_fail(),
{
    let rdf_type = "http://www.w3.org/1999/02/22-rdf-syntax-ns#type";
    let rdf_property = "http://www.w3.org/1999/02/22-rdf-syntax-ns#Property";
    let rdfs_class = "http://www.w3.org/2000/01/rdf-schema#Class";
    let rdfs_sub_class_of = "http://www.w3.org/2000/01/rdf-schema#subClassOf";
    let rdfs_domain = "http://www.w3.org/2000/01/rdf-schema#domain";
    let rdfs_range = "http://www.w3.org/2000/01/rdf-schema#range";
    let c1 = "http://example.org/ns/C1";
    let c2 = "http://example.org/ns/C2";
    let p1 = "http://example.org/ns/P1";
    let p2 = "http://example.org/ns/P2";
    let i1a = "http://example.org/ns/I1A";
    let i1b = "http://example.org/ns/I1B";
    let i2a = "http://example.org/ns/I2A";
    let i2b = "http://example.org/ns/I2B";
    let g1 = "http://example.org/ns/G1";
    let g2 = "http://example.org/ns/G2";
    let mut v: Vec<Quad> = Vec::new();
    v.push(quad(iri(c1), iri(rdf_type), iri(rdfs_class), None));
    v.push(quad(iri(c1), iri(rdf_type), iri(rdfs_class), Some(iri(g1))));
    v.push(quad(iri(c2), iri(rdf_type), iri(rdfs_class), None));
    v.push(quad(iri(c2), iri(rdfs_sub_class_of), iri(c1), Some(iri(g1))));
    v.push(quad(iri(p1), iri(rdf_type), iri(rdf_property), None));
    v.push(quad(iri(p1), iri(rdfs_domain), iri(c1), Some(iri(g1))));
    v.push(quad(iri(p1), iri(rdfs_range), iri(c2), Some(iri(g1))));
    v.push(quad(iri(p2), iri(rdf_type), iri(rdf_property), None));
    v.push(quad(iri(p2), iri(rdfs_domain), iri(c2), Some(iri(g1))));
    v.push(quad(iri(p2), iri(rdfs_range), iri(c2), Some(iri(g1))));
    v.push(quad(iri(i1a), iri(rdf_type), iri(c1), Some(iri(g2))));
    v.push(quad(iri(i1b), iri(rdf_type), iri(c1), Some(iri(g2))));
    v.push(quad(iri(i2a), iri(rdf_type), iri(c2), Some(iri(g2))));
    v.push(quad(iri(i2b), iri(rdf_type), iri(c2), Some(iri(g2))));
    v.push(quad(iri(i1a), iri(p1), iri(i2a), Some(iri(g2))));
    v.push(quad(iri(i1b), iri(p1), iri(i2b), Some(iri(g2))));
    v.push(quad(iri(i2a), iri(p2), iri(i2b), Some(iri(g2))));
    let r = VecQuadSource::from_quads(v);
    proof {
        assert(r.pending() =~= some_quads_fixture());
    }
    r
}

/// A five-quad source whose nodes keep the strict positions of each
/// kind: IRIs and blank nodes as subjects, literals as objects only; it
/// yields exactly the quads of `strict_node_types_fixture`, in order.
pub fn strict_node_types_quads() -> (r: VecQuadSource<NeverError>)
    ensures
        r.pending() == strict_node_types_fixture(),
        r.pending().len() == 5,
        !r.will_fail(),
{
    let rdf_type = "http://www.w3.org/1999/02/22-rdf-syntax-ns#type";
    let rdf_property = "http://www.w3.org/1999/02/22-rdf-syntax-ns#Property";
    let mut v: Vec<Quad> = Vec::new();
    v.push(quad(iri(rdf_type), iri(rdf_type), iri(rdf_property), Some(iri(rdf_type))));
    v.push(
        quad(
            Term::BNode("1".to_owned()),
            iri(rdf_type),
            Term::Literal("lit1".to_owned(), LiteralKind::Simple),
            Some(Term::BNode("2".to_owned())),
        ),
    );
    v.push(
        quad(Term::BNode("2".to_owned()), iri(rdf_type), Term::BNode("1".to_owned()), None),
    );
    v.push(
        quad(
            Term::BNode("2".to_owned()),
            iri(rdf_type),
            Term::Literal("lit2".to_owned(), LiteralKind::Simple),
            None,
        ),
    );
    v.push(
        quad(
            Term::BNode("2".to_owned()),
            iri(rdf_type),
            Term::Literal("lit2".to_owned(), LiteralKind::Lang("en".to_owned())),
            None,
        ),
    );
    let r = VecQuadSource::from_quads(v);
    proof {
        assert(r.pending() =~= strict_node_types_fixture());
    }
    r
}

/// A five-quad source using every node kind in every position,
/// including variables and literals as subjects and predicates; it
/// yields exactly the quads of `generalized_node_types_fixture`, in
/// order.
pub fn generalized_node_types_quads() -> (r: VecQuadSource<NeverError>)
    ensures
        r.pending() == generalized_node_types_fixture(),
        r.pending().len() == 5,
        !r.will_fail(),
{
    let rdf_type = "http://www.w3.org/1999/02/22-rdf-syntax-ns#type";
    let rdf_property = "http://www.w3.org/1999/02/22-rdf-syntax-ns#Property";
    let mut v: Vec<Quad> = Vec::new();
    v.push(quad(iri(rdf_type), iri(rdf_type), iri(rdf_property), Some(iri(rdf_type))));
    v.push(
        quad(
            Term::BNode("1".to_owned()),
            Term::BNode("2".to_owned()),
            Term::BNode("1".to_owned()),
            Some(Term::BNode("2".to_owned())),
        ),
    );
    v.push(
        quad(
            Term::Literal("lit2".to_owned(), LiteralKind::Simple),
            Term::Literal("lit1".to_owned(), LiteralKind::Simple),
            Term::Literal("lit1".to_owned(), LiteralKind::Simple),
            Some(Term::Literal("lit2".to_owned(), LiteralKind::Simple)),
        ),
    );
    v.push(
        quad(
            Term::Variable("v1".to_owned()),
            Term::Variable("v2".to_owned()),
            Term::Variable("v3".to_owned()),
            Some(Term::Variable("v3".to_owned())),
        ),
    );
    v.push(
        quad(
            Term::BNode("2".to_owned()),
            Term::Variable("v1".to_owned()),
            Term::Literal("lit2".to_owned(), LiteralKind::Lang("en".to_owned())),
            None,
        ),
    );
    let r = VecQuadSource::from_quads(v);
    proof {
        assert(r.pending() =~= generalized_node_types_fixture());
    }
    r
}

/// A two-quad source over one class pair in the named graph `G1`: it
/// yields exactly the two distinct quads of `make_quad_source_fixture`,
/// in order.
pub fn make_quad_source() -> (r: VecQuadSource<NeverError>)
    ensures
        r.pending() == make_quad_source_fixture(),
        r.pending().len() == 2,
        r.pending()[0] != r.pending()[1],
        !r.will_fail(),
{
    let rdfs_class = "http://www.w3.org/2000/01/rdf-schema#Class";
    let rdf_type = "http://www.w3.org/1999/02/22-rdf-syntax-ns#type";
    let rdfs_sub_class_of = "http://www.w3.org/2000/01/rdf-schema#subClassOf";
    let c1 = "http://example.org/ns/C1";
    let c2 = "http://example.org/ns/C2";
    let g1 = "http://example.org/ns/G1";
    let mut v: Vec<Quad> = Vec::new();
    v.push(quad(iri(c1), iri(rdf_type), iri(rdfs_class), Some(iri(g1))));
    v.push(quad(iri(c1), iri(rdfs_sub_class_of), iri(c2), Some(iri(g1))));
    let r = VecQuadSource::from_quads(v);
    proof {
        assert(r.pending() =~= make_quad_source_fixture());
        reveal_strlit("http://www.w3.org/1999/02/22-rdf-syntax-ns#type");
        reveal_strlit("http://www.w3.org/2000/01/rdf-schema#subClassOf");
        assert(("http://www.w3.org/1999/02/22-rdf-syntax-ns#type"@)[18] != (
        "http://www.w3.org/2000/01/rdf-schema#subClassOf"@)[18]);
        assert(v_rdf_type() != v_rdfs_sub_class_of());
        assert(r.pending()[0] != r.pending()[1]);
    }
    r
}

/// Unwraps one streamed quad into its owned form; the caller must have
/// established that the entry is not an error.
pub fn as_box_q<E>(quad: Result<Quad, E>) -> (r: Quad)
    requires
        quad is Ok,
    ensures
        r@ == quad->Ok_0@,
{
    match quad {
        Ok(q) => q,
        Err(_) => unreached(),
    }
}

} // verus!
