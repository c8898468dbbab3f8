//! In-memory encoded terms: every RDF term as a tagged variant of bounded
//! size, with long strings replaced by a deterministic 128-bit hash
//! reference into the string dictionary.

use vstd::prelude::*;
use vstd::utf8::encode_utf8;

use crate::small_string::SmallString;

verus! {

/// Offset basis of the 128-bit FNV-1a hash.
pub const STR_HASH_OFFSET: u128 = 0x6c62272e07bb014262b821756295c58d;

/// Multiplier of the 128-bit FNV-1a hash.
pub const STR_HASH_PRIME: u128 = 0x1000000000000000000013b;

/// The 128-bit FNV-1a hash of a byte sequence; deterministic across
/// processes, so any encoder produces the same key for the same string.
pub open spec fn spec_str_hash_bytes(bytes: Seq<u8>) -> u128
    decreases bytes.len(),
{
    if bytes.len() == 0 {
        STR_HASH_OFFSET
    } else {
        (spec_str_hash_bytes(bytes.drop_last()) ^ (bytes.last() as u128)).wrapping_mul(
            STR_HASH_PRIME,
        )
    }
}

/// The hash of a string is the hash of its UTF-8 bytes.
pub open spec fn spec_str_hash(s: Seq<char>) -> u128 {
    spec_str_hash_bytes(encode_utf8(s))
}

/// A dictionary key: the deterministic hash of the interned string.
#[derive(Clone, Copy, PartialEq, Eq, Structural, Debug)]
pub struct StrHash {
    pub hash: u128,
}

/// Computes the deterministic hash under which a string is interned.
pub fn str_hash(s: &str) -> (r: StrHash)
    ensures
        r.hash == spec_str_hash(s@),
{
    let bytes = s.as_bytes();
    let n = bytes.len();
    let mut h: u128 = STR_HASH_OFFSET;
    let mut i: usize = 0;
    while i < n
        invariant
            n == bytes@.len(),
            i <= n,
            bytes@ == encode_utf8(s@),
            h == spec_str_hash_bytes(bytes@.take(i as int)),
        decreases n - i,
    {
        let b = bytes[i];
        proof {
            assert(bytes@.take(i + 1).drop_last() =~= bytes@.take(i as int));
            assert(bytes@.take(i + 1).last() == bytes@[i as int]);
        }
        h = (h ^ (b as u128)).wrapping_mul(STR_HASH_PRIME);
        i = i + 1;
    }
    proof {
        assert(bytes@.take(n as int) =~= bytes@);
    }
    StrHash { hash: h }
}

/// An RDF term in its bounded in-memory encoding: one tag plus a fixed or
/// inline payload. Strings longer than the inline capacity are referenced
/// by hash; numeric, boolean and calendar literals are inlined so that
/// the byte encoding can order them without consulting the dictionary.
#[derive(Clone, Copy, PartialEq, Eq, Structural, Debug)]
pub enum EncodedTerm {
    /// Marker used in the graph-name position of default-graph triples.
    DefaultGraph,
    NamedNode { iri_id: StrHash },
    NumericalBlankNode { id: u128 },
    SmallStringLiteral { value: SmallString },
    BigStringLiteral { value_id: StrHash },
    SmallSmallLangStringLiteral { value: SmallString, language: SmallString },
    SmallBigLangStringLiteral { value: SmallString, language_id: StrHash },
    BigSmallLangStringLiteral { value_id: StrHash, language: SmallString },
    BigBigLangStringLiteral { value_id: StrHash, language_id: StrHash },
    SmallTypedLiteral { value: SmallString, datatype_id: StrHash },
    BigTypedLiteral { value_id: StrHash, datatype_id: StrHash },
    BooleanLiteral { value: bool },
    /// A 32-bit floating point literal, carried by its bit pattern.
    FloatLiteral { bits: u32 },
    /// A 64-bit floating point literal, carried by its bit pattern.
    DoubleLiteral { bits: u64 },
    IntegerLiteral { value: i64 },
    DecimalLiteral { value: i128 },
    DateTimeLiteral { seconds: i64, offset_minutes: i16 },
    DateLiteral { seconds: i64, offset_minutes: i16 },
    TimeLiteral { seconds: i64, offset_minutes: i16 },
}

impl EncodedTerm {
    /// Inline strings must carry their canonical packed form.
    pub open spec fn wf(&self) -> bool {
        match *self {
            EncodedTerm::SmallStringLiteral { value } => value.wf(),
            EncodedTerm::SmallSmallLangStringLiteral { value, language } => value.wf()
                && language.wf(),
            EncodedTerm::SmallBigLangStringLiteral { value, .. } => value.wf(),
            EncodedTerm::BigSmallLangStringLiteral { language, .. } => language.wf(),
            EncodedTerm::SmallTypedLiteral { value, .. } => value.wf(),
            _ => true,
        }
    }

    /// The dictionary keys this term refers to; invariant 4 of the store
    /// demands an entry for each.
    pub open spec fn hash_refs(&self) -> Set<u128> {
        match *self {
            EncodedTerm::NamedNode { iri_id } => set![iri_id.hash],
            EncodedTerm::BigStringLiteral { value_id } => set![value_id.hash],
            EncodedTerm::SmallBigLangStringLiteral { language_id, .. } => set![language_id.hash],
            EncodedTerm::BigSmallLangStringLiteral { value_id, .. } => set![value_id.hash],
            EncodedTerm::BigBigLangStringLiteral { value_id, language_id } => set![
                value_id.hash,
                language_id.hash,
            ],
            EncodedTerm::SmallTypedLiteral { datatype_id, .. } => set![datatype_id.hash],
            EncodedTerm::BigTypedLiteral { value_id, datatype_id } => set![
                value_id.hash,
                datatype_id.hash,
            ],
            _ => Set::empty(),
        }
    }

    pub fn is_default_graph(&self) -> (r: bool)
        ensures
            r == (self is DefaultGraph),
    {
        match self {
            EncodedTerm::DefaultGraph => true,
            _ => false,
        }
    }

    /// Whether the term may stand in the subject position.
    pub open spec fn spec_is_named_or_blank(&self) -> bool {
        self is NamedNode || self is NumericalBlankNode
    }

    pub fn is_named_node(&self) -> (r: bool)
        ensures
            r == (self is NamedNode),
    {
        match self {
            EncodedTerm::NamedNode { .. } => true,
            _ => false,
        }
    }

    pub fn is_named_or_blank(&self) -> (r: bool)
        ensures
            r == self.spec_is_named_or_blank(),
    {
        match self {
            EncodedTerm::NamedNode { .. } => true,
            EncodedTerm::NumericalBlankNode { .. } => true,
            _ => false,
        }
    }
}

/// Four encoded terms; the graph name may be the default-graph marker.
#[derive(Clone, Copy, PartialEq, Eq, Structural, Debug)]
pub struct EncodedQuad {
    pub subject: EncodedTerm,
    pub predicate: EncodedTerm,
    pub object: EncodedTerm,
    pub graph_name: EncodedTerm,
}

impl EncodedQuad {
    pub fn new(
        subject: EncodedTerm,
        predicate: EncodedTerm,
        object: EncodedTerm,
        graph_name: EncodedTerm,
    ) -> (r: EncodedQuad)
        ensures
            r == (EncodedQuad { subject, predicate, object, graph_name }),
    {
        EncodedQuad { subject, predicate, object, graph_name }
    }

    /// Positional constraints of an RDF quad, plus canonical payloads.
    pub open spec fn wf(&self) -> bool {
        &&& self.subject.wf()
        &&& self.predicate.wf()
        &&& self.object.wf()
        &&& self.graph_name.wf()
        &&& self.subject.spec_is_named_or_blank()
        &&& self.predicate is NamedNode
        &&& !(self.object is DefaultGraph)
        &&& (self.graph_name.spec_is_named_or_blank() || self.graph_name is DefaultGraph)
    }

    /// All dictionary keys referenced from any position of the quad.
    pub open spec fn hash_refs(&self) -> Set<u128> {
        self.subject.hash_refs() + self.predicate.hash_refs() + self.object.hash_refs()
            + self.graph_name.hash_refs()
    }
}

} // verus!
