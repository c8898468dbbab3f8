use quadstore::bulk_loader::{should_report_progress, FileBulkLoader, StorageBulkLoader};
use quadstore::io::{DatasetFormat, DatasetSerializer, GraphFormat, GraphSerializer};
use quadstore::error::StorageError;
use quadstore::model::{encode_model_quad, Quad, Term};
use quadstore::numeric_encoder::EncodedQuad;
use quadstore::storage::{ChainedDecodingQuadIterator, Storage};

fn named(iri: &str) -> Term {
    Term::NamedNode { iri: iri.to_string() }
}

fn collect(mut it: ChainedDecodingQuadIterator) -> Vec<EncodedQuad> {
    let mut out = Vec::new();
    while let Some(r) = it.next() {
        out.push(r.unwrap());
    }
    out
}

fn sample_dataset() -> Vec<Quad> {
    let mut quads = Vec::new();
    for i in 0..3000i64 {
        quads.push(Quad {
            subject: named(&format!("http://example.com/s{}", i % 40)),
            predicate: named(&format!("http://example.com/p{}", i % 5)),
            object: Term::IntegerLiteral { value: i % 50 },
            graph_name: if i % 3 == 0 {
                Term::DefaultGraph
            } else {
                named(&format!("http://example.com/g{}", i % 2))
            },
        });
    }
    // Duplicates must collapse to single entries.
    for i in 0..100i64 {
        quads.push(Quad {
            subject: named(&format!("http://example.com/s{}", i % 40)),
            predicate: named(&format!("http://example.com/p{}", i % 5)),
            object: Term::IntegerLiteral { value: i % 50 },
            graph_name: if i % 3 == 0 {
                Term::DefaultGraph
            } else {
                named(&format!("http://example.com/g{}", i % 2))
            },
        });
    }
    quads
}

#[test]
fn bulk_loader_needs_two_threads() {
    let storage = Storage::new().unwrap();
    let mut loader = StorageBulkLoader::new(storage).with_num_threads(1);
    match loader.load(&sample_dataset()) {
        Err(StorageError::Other(m)) => {
            assert_eq!(m, "The bulk loader needs at least 2 threads")
        },
        _ => panic!("a single-threaded bulk load must be refused"),
    }
}

#[test]
fn bulk_loader_needs_enough_memory() {
    let storage = Storage::new().unwrap();
    let mut loader = StorageBulkLoader::new(storage)
        .with_num_threads(2)
        .with_max_memory_size_in_megabytes(1);
    match loader.load(&sample_dataset()) {
        Err(StorageError::Other(m)) => {
            assert_eq!(
                m,
                "The bulk loader memory bound is too low. It needs at least 100MB"
            )
        },
        _ => panic!("a starved bulk load must be refused"),
    }
}

#[test]
fn bulk_load_counts_distinct_quads() {
    let quads = sample_dataset();
    let storage = Storage::new().unwrap();
    let mut loader = StorageBulkLoader::new(storage)
        .with_num_threads(4)
        .with_max_memory_size_in_megabytes(100);
    loader.load(&quads).unwrap();
    let loaded = loader.finish();
    let mut distinct: Vec<EncodedQuad> = Vec::new();
    for q in &quads {
        let e = encode_model_quad(q);
        if !distinct.contains(&e) {
            distinct.push(e);
        }
    }
    let reader = loaded.snapshot();
    assert_eq!(reader.len().unwrap(), distinct.len());
    for e in &distinct {
        assert!(reader.contains(e).unwrap());
    }
}

/// One worker batch adds exactly its deduplicated size to the shared
/// progress counter.
#[test]
fn batch_counter_adds_deduplicated_size() {
    let mut storage = Storage::new().unwrap();
    let mut worker = FileBulkLoader::new(1000);
    let mut batch = Vec::new();
    for i in 0..10i64 {
        batch.push(Quad {
            subject: named("http://example.com/s"),
            predicate: named("http://example.com/p"),
            object: Term::IntegerLiteral { value: i % 3 },
            graph_name: if i % 2 == 0 {
                Term::DefaultGraph
            } else {
                named("http://example.com/g")
            },
        });
    }
    // 3 distinct objects x 2 graph names, so 6 distinct quads in 10.
    let mut counter: u64 = 7;
    worker.load(&mut storage, &batch, &mut counter).unwrap();
    assert_eq!(counter, 7 + 6);
    assert_eq!(storage.snapshot().len().unwrap(), 6);
}

/// Bulk loading a dataset and inserting it one quad at a time produce
/// reader-equivalent stores.
#[test]
fn bulk_load_matches_single_inserts() {
    let quads = sample_dataset();
    let mut single = Storage::new().unwrap();
    for q in &quads {
        single.insert(q).unwrap();
    }
    let storage = Storage::new().unwrap();
    let mut loader = StorageBulkLoader::new(storage)
        .with_num_threads(4)
        .with_max_memory_size_in_megabytes(100);
    loader.load(&quads).unwrap();
    let bulk = loader.finish();
    let single_reader = single.snapshot();
    let bulk_reader = bulk.snapshot();
    assert_eq!(single_reader.len().unwrap(), bulk_reader.len().unwrap());
    for e in collect(single_reader.quads()) {
        assert!(bulk_reader.contains(&e).unwrap());
    }
    for e in collect(bulk_reader.quads()) {
        assert!(single_reader.contains(&e).unwrap());
    }
    // A sample of pattern queries agrees between the two stores.
    let samples = [
        encode_model_quad(&quads[0]),
        encode_model_quad(&quads[7]),
        encode_model_quad(&quads[42]),
    ];
    for e in samples {
        let a = collect(single_reader.quads_for_pattern(Some(&e.subject), None, None, None));
        let b = collect(bulk_reader.quads_for_pattern(Some(&e.subject), None, None, None));
        let mut ad: Vec<String> = a.iter().map(|q| format!("{q:?}")).collect();
        let mut bd: Vec<String> = b.iter().map(|q| format!("{q:?}")).collect();
        ad.sort();
        bd.sort();
        assert_eq!(ad, bd);
    }
}

#[test]
fn progress_reports_on_step_boundaries() {
    assert!(!should_report_progress(0, 0));
    assert!(!should_report_progress(999_999, 0));
    assert!(should_report_progress(1_000_000, 0));
    assert!(!should_report_progress(1_500_000, 1_000_000));
    assert!(should_report_progress(2_000_000, 1_000_000));
}

#[test]
fn serializer_formats_carry_through() {
    let g = GraphSerializer::from_format(GraphFormat::Turtle);
    assert_eq!(g.format, GraphFormat::Turtle);
    let d = DatasetSerializer::from_format(DatasetFormat::NQuads);
    assert_eq!(d.format, DatasetFormat::NQuads);
}
