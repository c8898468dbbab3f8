use quadstore::binary_encoder::{
    decode_term, encode_term, write_spo_quad, write_spog_quad, QuadEncoding,
    TYPE_INTEGER_LITERAL_ID, WRITTEN_TERM_MAX_SIZE,
};
use quadstore::numeric_encoder::{str_hash, EncodedQuad, EncodedTerm, StrHash};
use quadstore::small_string::SmallString;

fn small(s: &str) -> SmallString {
    SmallString::from_bytes(s.as_bytes()).unwrap()
}

#[test]
fn integer_literal_encoding_is_tag_plus_big_endian() {
    let t = EncodedTerm::IntegerLiteral { value: 42 };
    let bytes = encode_term(&t);
    assert_eq!(bytes, vec![TYPE_INTEGER_LITERAL_ID, 0, 0, 0, 0, 0, 0, 0, 42]);
    assert_eq!(decode_term(&bytes).unwrap(), t);
    // Lexicographic order of encodings follows numeric order.
    let one = encode_term(&EncodedTerm::IntegerLiteral { value: 1 });
    let two = encode_term(&EncodedTerm::IntegerLiteral { value: 2 });
    let ten = encode_term(&EncodedTerm::IntegerLiteral { value: 10 });
    assert!(one < two);
    assert!(two < ten);
}

#[test]
fn every_term_variant_round_trips() {
    let h = str_hash("http://example.com/x");
    let terms = vec![
        EncodedTerm::DefaultGraph,
        EncodedTerm::NamedNode { iri_id: h },
        EncodedTerm::NumericalBlankNode { id: 0x0123_4567_89ab_cdef_0011_2233_4455_6677 },
        EncodedTerm::SmallStringLiteral { value: small("abc") },
        EncodedTerm::BigStringLiteral { value_id: h },
        EncodedTerm::SmallSmallLangStringLiteral { value: small("abc"), language: small("en") },
        EncodedTerm::SmallBigLangStringLiteral { value: small("abc"), language_id: h },
        EncodedTerm::BigSmallLangStringLiteral { value_id: h, language: small("en") },
        EncodedTerm::BigBigLangStringLiteral { value_id: h, language_id: h },
        EncodedTerm::SmallTypedLiteral { value: small("42"), datatype_id: h },
        EncodedTerm::BigTypedLiteral { value_id: h, datatype_id: h },
        EncodedTerm::BooleanLiteral { value: true },
        EncodedTerm::BooleanLiteral { value: false },
        EncodedTerm::FloatLiteral { bits: 0x3f80_0000 },
        EncodedTerm::DoubleLiteral { bits: 0x3ff0_0000_0000_0000 },
        EncodedTerm::IntegerLiteral { value: -42 },
        EncodedTerm::DecimalLiteral { value: -123456789 },
        EncodedTerm::DateTimeLiteral { seconds: 1_600_000_000, offset_minutes: -120 },
        EncodedTerm::DateLiteral { seconds: 86_400, offset_minutes: 0 },
        EncodedTerm::TimeLiteral { seconds: 3_600, offset_minutes: 60 },
    ];
    for t in terms {
        let bytes = encode_term(&t);
        assert!(1 <= bytes.len() && bytes.len() <= WRITTEN_TERM_MAX_SIZE);
        assert_eq!(decode_term(&bytes).unwrap(), t, "round trip failed");
        // Re-encoding the decoded form yields the exact same bytes.
        assert_eq!(encode_term(&decode_term(&bytes).unwrap()), bytes);
    }
}

#[test]
fn malformed_term_encodings_are_refused() {
    // Empty buffer.
    assert!(decode_term(&[]).is_err());
    // Unknown tag.
    assert!(decode_term(&[200]).is_err());
    // Truncated payload.
    assert!(decode_term(&[TYPE_INTEGER_LITERAL_ID, 0, 0]).is_err());
    // Trailing bytes.
    let mut bytes = encode_term(&EncodedTerm::BooleanLiteral { value: true });
    bytes.push(0);
    assert!(decode_term(&bytes).is_err());
    // A boolean byte out of range.
    assert!(decode_term(&[11, 2]).is_err());
    // A non-canonical inline string: nonzero padding beyond the length.
    let mut ss = encode_term(&EncodedTerm::SmallStringLiteral { value: small("a") });
    ss[5] = 7;
    assert!(decode_term(&ss).is_err());
}

#[test]
fn quad_keys_round_trip() {
    let q = EncodedQuad {
        subject: EncodedTerm::NamedNode { iri_id: str_hash("http://example.com/s") },
        predicate: EncodedTerm::NamedNode { iri_id: str_hash("http://example.com/p") },
        object: EncodedTerm::SmallStringLiteral { value: small("abc") },
        graph_name: EncodedTerm::DefaultGraph,
    };
    let mut key = Vec::new();
    write_spo_quad(&mut key, &q);
    assert_eq!(QuadEncoding::Dspo.decode(&key).unwrap(), q);

    let qn = EncodedQuad {
        graph_name: EncodedTerm::NamedNode { iri_id: str_hash("http://example.com/g") },
        ..q
    };
    let mut key2 = Vec::new();
    write_spog_quad(&mut key2, &qn);
    assert_eq!(QuadEncoding::Spog.decode(&key2).unwrap(), qn);
    // A named-graph key must not carry the default-graph marker.
    let mut key3 = Vec::new();
    write_spog_quad(&mut key3, &q);
    assert!(QuadEncoding::Spog.decode(&key3).is_err());
}

#[test]
fn small_string_bounds() {
    assert!(SmallString::from_bytes(b"exactly15bytes!").is_some());
    assert!(SmallString::from_bytes(b"sixteen bytes!!!").is_none());
    let s = small("hello");
    assert_eq!(s.len(), 5);
    assert_eq!(s.to_bytes(), b"hello".to_vec());
    assert_eq!(s.get(1), b'e');
    assert_eq!(SmallString::empty().len(), 0);
}

#[test]
fn str_hash_is_deterministic() {
    let a = str_hash("http://example.com/s");
    let b = str_hash("http://example.com/s");
    let c = str_hash("http://example.com/t");
    assert_eq!(a, b);
    assert_ne!(a, c);
    assert_ne!(str_hash(""), StrHash { hash: 0 });
}
