use quadstore::model::{encode_model_quad, encode_model_term, Quad, Term};
use quadstore::numeric_encoder::{EncodedQuad, EncodedTerm};
use quadstore::storage::{ChainedDecodingQuadIterator, Storage};

fn named(iri: &str) -> Term {
    Term::NamedNode { iri: iri.to_string() }
}

fn collect(mut it: ChainedDecodingQuadIterator) -> Vec<EncodedQuad> {
    let mut out = Vec::new();
    while let Some(r) = it.next() {
        out.push(r.unwrap());
    }
    out
}

fn as_sorted_debug(mut v: Vec<EncodedQuad>) -> Vec<String> {
    let mut out: Vec<String> = v.drain(..).map(|q| format!("{q:?}")).collect();
    out.sort();
    out
}

/// Every one of the 16 bound/unbound combinations of (s, p, o, g) returns
/// exactly the matching subset of a full scan.
#[test]
fn pattern_coverage_all_sixteen_combinations() {
    let mut storage = Storage::new().unwrap();
    let subjects = ["http://example.com/s1", "http://example.com/s2"];
    let predicates = ["http://example.com/p1", "http://example.com/p2"];
    let objects = [1i64, 2];
    let graphs = [None, Some("http://example.com/g1"), Some("http://example.com/g2")];
    let mut all = Vec::new();
    for s in subjects {
        for p in predicates {
            for o in objects {
                for g in graphs {
                    let q = Quad {
                        subject: named(s),
                        predicate: named(p),
                        object: Term::IntegerLiteral { value: o },
                        graph_name: match g {
                            None => Term::DefaultGraph,
                            Some(iri) => named(iri),
                        },
                    };
                    assert!(storage.insert(&q).unwrap());
                    all.push(encode_model_quad(&q));
                }
            }
        }
    }
    let reader = storage.snapshot();
    let full = collect(reader.quads());
    assert_eq!(full.len(), all.len());

    let s_bind = encode_model_term(&named("http://example.com/s1"));
    let p_bind = encode_model_term(&named("http://example.com/p2"));
    let o_bind = encode_model_term(&Term::IntegerLiteral { value: 2 });
    let g_bind = encode_model_term(&named("http://example.com/g1"));
    for mask in 0..16u32 {
        let s = if mask & 1 != 0 { Some(&s_bind) } else { None };
        let p = if mask & 2 != 0 { Some(&p_bind) } else { None };
        let o = if mask & 4 != 0 { Some(&o_bind) } else { None };
        let g = if mask & 8 != 0 { Some(&g_bind) } else { None };
        let got = collect(reader.quads_for_pattern(s, p, o, g));
        let expected: Vec<EncodedQuad> = full
            .iter()
            .copied()
            .filter(|q| {
                s.map_or(true, |t| q.subject == *t)
                    && p.map_or(true, |t| q.predicate == *t)
                    && o.map_or(true, |t| q.object == *t)
                    && g.map_or(true, |t| q.graph_name == *t)
            })
            .collect();
        assert_eq!(
            as_sorted_debug(got),
            as_sorted_debug(expected),
            "pattern mask {mask} returned the wrong subset"
        );
    }
}

/// A bound default-graph marker restricts the scan to the default graph.
#[test]
fn default_graph_bound_pattern() {
    let mut storage = Storage::new().unwrap();
    let qd = Quad {
        subject: named("http://example.com/s"),
        predicate: named("http://example.com/p"),
        object: Term::IntegerLiteral { value: 1 },
        graph_name: Term::DefaultGraph,
    };
    let qn = Quad { graph_name: named("http://example.com/g"), ..qd.clone() };
    storage.insert(&qd).unwrap();
    storage.insert(&qn).unwrap();
    let reader = storage.snapshot();
    let dg = EncodedTerm::DefaultGraph;
    let got = collect(reader.quads_for_pattern(None, None, None, Some(&dg)));
    assert_eq!(got, vec![encode_model_quad(&qd)]);
}
