use quadstore::binary_encoder::LATEST_STORAGE_VERSION;
use quadstore::error::StorageError;
use quadstore::model::{encode_model_quad, encode_model_term, Quad, Term};
use quadstore::numeric_encoder::{EncodedQuad, EncodedTerm};
use quadstore::storage::{ChainedDecodingQuadIterator, Storage};

fn named(iri: &str) -> Term {
    Term::NamedNode { iri: iri.to_string() }
}

fn quad(s: &str, p: &str, o: Term, g: Term) -> Quad {
    Quad { subject: named(s), predicate: named(p), object: o, graph_name: g }
}

fn collect(mut it: ChainedDecodingQuadIterator) -> Vec<EncodedQuad> {
    let mut out = Vec::new();
    while let Some(r) = it.next() {
        out.push(r.unwrap());
    }
    out
}

#[test]
fn single_default_insert() {
    let mut storage = Storage::new().unwrap();
    let q = quad(
        "http://example.com/s",
        "http://example.com/p",
        Term::StringLiteral { value: "abc".to_string() },
        Term::DefaultGraph,
    );
    assert!(storage.insert(&q).unwrap());
    let reader = storage.snapshot();
    assert_eq!(reader.len().unwrap(), 1);
    assert!(!reader.is_empty().unwrap());
    let e = encode_model_quad(&q);
    assert!(reader.contains(&e).unwrap());
    let dg = EncodedTerm::DefaultGraph;
    let got = collect(reader.quads_for_pattern(None, None, None, Some(&dg)));
    assert_eq!(got, vec![e]);
}

#[test]
fn insert_and_remove_idempotence() {
    let mut storage = Storage::new().unwrap();
    let q = quad(
        "http://example.com/s",
        "http://example.com/p",
        Term::IntegerLiteral { value: 7 },
        Term::DefaultGraph,
    );
    assert!(storage.insert(&q).unwrap());
    assert!(!storage.insert(&q).unwrap());
    assert_eq!(storage.snapshot().len().unwrap(), 1);
    assert!(storage.remove(&q).unwrap());
    assert!(!storage.remove(&q).unwrap());
    assert_eq!(storage.snapshot().len().unwrap(), 0);
}

#[test]
fn union_scan_sees_both_named_graphs() {
    let mut storage = Storage::new().unwrap();
    let g1 = named("http://example.com/g1");
    let g2 = named("http://example.com/g2");
    let q1 = quad(
        "http://example.com/s",
        "http://example.com/p",
        Term::StringLiteral { value: "abc".to_string() },
        g1.clone(),
    );
    let q2 = quad(
        "http://example.com/s",
        "http://example.com/p",
        Term::StringLiteral { value: "abc".to_string() },
        g2.clone(),
    );
    assert!(storage.insert(&q1).unwrap());
    assert!(storage.insert(&q2).unwrap());
    let reader = storage.snapshot();
    let union = collect(reader.quads_for_pattern(None, None, None, None));
    assert_eq!(union.len(), 2);
    let any_named = collect(reader.quads_in_named_graph(None, None, None));
    assert_eq!(any_named.len(), 2);
    let eg1 = encode_model_term(&g1);
    let only_g1 = collect(reader.quads_for_pattern(None, None, None, Some(&eg1)));
    assert_eq!(only_g1.len(), 1);
    assert_eq!(only_g1[0], encode_model_quad(&q1));
    // Removing the quad from one graph leaves it once in the union.
    assert!(storage.remove(&q1).unwrap());
    let reader2 = storage.snapshot();
    let union2 = collect(reader2.quads_for_pattern(None, None, None, None));
    assert_eq!(union2, vec![encode_model_quad(&q2)]);
}

#[test]
fn remove_named_graph_empties_it() {
    let mut storage = Storage::new().unwrap();
    let g1 = named("http://example.com/g1");
    for i in 0..1000 {
        let q = quad(
            &format!("http://example.com/s{i}"),
            "http://example.com/p",
            Term::IntegerLiteral { value: i },
            g1.clone(),
        );
        assert!(storage.insert(&q).unwrap());
    }
    assert_eq!(storage.snapshot().len().unwrap(), 1000);
    assert!(storage.remove_named_graph(&g1).unwrap());
    let reader = storage.snapshot();
    assert_eq!(reader.len().unwrap(), 0);
    let eg1 = encode_model_term(&g1);
    assert!(!reader.contains_named_graph(&eg1).unwrap());
}

#[test]
fn storage_version_check() {
    match Storage::open_with_version(LATEST_STORAGE_VERSION - 1) {
        Err(StorageError::Corruption(m)) => assert_eq!(m, "invalid storage version"),
        _ => panic!("a stale version must be refused as corruption"),
    }
    assert!(Storage::open_with_version(LATEST_STORAGE_VERSION).is_ok());
}

#[test]
fn named_graph_registry() {
    let mut storage = Storage::new().unwrap();
    let g = named("http://example.com/g");
    assert!(storage.insert_named_graph(&g).unwrap());
    assert!(!storage.insert_named_graph(&g).unwrap());
    let reader = storage.snapshot();
    let eg = encode_model_term(&g);
    assert!(reader.contains_named_graph(&eg).unwrap());
    let mut it = reader.named_graphs();
    assert_eq!(it.next().unwrap().unwrap(), eg);
    assert!(it.next().is_none());
    // An empty graph stays registered after clearing, leaves on removal.
    assert!(storage.remove_named_graph(&g).unwrap());
    assert!(!storage.snapshot().contains_named_graph(&eg).unwrap());
}

#[test]
fn clear_operations() {
    let mut storage = Storage::new().unwrap();
    let g = named("http://example.com/g");
    let qd = quad(
        "http://example.com/s",
        "http://example.com/p",
        Term::BooleanLiteral { value: true },
        Term::DefaultGraph,
    );
    let qn = quad(
        "http://example.com/s",
        "http://example.com/p",
        Term::BooleanLiteral { value: false },
        g.clone(),
    );
    storage.insert(&qd).unwrap();
    storage.insert(&qn).unwrap();
    storage.clear_graph(&Term::DefaultGraph).unwrap();
    assert_eq!(storage.snapshot().len().unwrap(), 1);
    storage.insert(&qd).unwrap();
    storage.clear_all_named_graphs().unwrap();
    let reader = storage.snapshot();
    assert_eq!(reader.len().unwrap(), 1);
    assert!(reader.contains_named_graph(&encode_model_term(&g)).unwrap());
    storage.clear().unwrap();
    let reader2 = storage.snapshot();
    assert_eq!(reader2.len().unwrap(), 0);
    assert!(!reader2.contains_named_graph(&encode_model_term(&g)).unwrap());
}

#[test]
fn dictionary_resolves_interned_strings() {
    let mut storage = Storage::new().unwrap();
    let long_value = "a value that is longer than fifteen bytes".to_string();
    let q = quad(
        "http://example.com/subject",
        "http://example.com/predicate",
        Term::StringLiteral { value: long_value.clone() },
        Term::DefaultGraph,
    );
    storage.insert(&q).unwrap();
    let reader = storage.snapshot();
    let e = encode_model_quad(&q);
    if let EncodedTerm::BigStringLiteral { value_id } = e.object {
        assert!(reader.contains_str(&value_id).unwrap());
        assert_eq!(reader.get_str(&value_id).unwrap().unwrap(), long_value);
    } else {
        panic!("a long string literal must be hash referenced");
    }
    if let EncodedTerm::NamedNode { iri_id } = e.subject {
        assert_eq!(
            reader.get_str(&iri_id).unwrap().unwrap(),
            "http://example.com/subject"
        );
    } else {
        panic!("a named node is stored as a hash reference");
    }
    assert!(reader.validate().is_ok());
}

#[test]
fn transaction_commit_is_atomic() {
    let storage = Storage::new().unwrap();
    let q = quad(
        "http://example.com/s",
        "http://example.com/p",
        Term::IntegerLiteral { value: 1 },
        Term::DefaultGraph,
    );
    let mut writer = storage.start_transaction();
    writer.insert(&q).unwrap();
    // The base store does not see the uncommitted write; the writer does.
    assert_eq!(storage.snapshot().len().unwrap(), 0);
    assert_eq!(writer.reader().len().unwrap(), 1);
    let committed = writer.commit();
    assert_eq!(committed.snapshot().len().unwrap(), 1);
}
