//! Decoded RDF terms and quads: what callers hand the writer and the
//! bulk loader. Encoding one of these inlines short strings and replaces
//! long ones by dictionary references.

use vstd::prelude::*;
use vstd::string::StringSliceAdditionalSpecFns;
use vstd::utf8::encode_utf8;

use crate::dictionary::Dictionary;
use crate::error::StorageError;
use crate::numeric_encoder::{spec_str_hash, str_hash, EncodedQuad, EncodedTerm, StrHash};
use crate::small_string::SmallString;

verus! {

/// A decoded RDF term. Floating point literals are carried by their bit
/// patterns; calendar literals by seconds and a time zone offset.
#[derive(Debug)]
pub enum Term {
    NamedNode { iri: String },
    BlankNode { id: u128 },
    StringLiteral { value: String },
    LangStringLiteral { value: String, language: String },
    TypedLiteral { value: String, datatype: String },
    BooleanLiteral { value: bool },
    FloatLiteral { bits: u32 },
    DoubleLiteral { bits: u64 },
    IntegerLiteral { value: i64 },
    DecimalLiteral { value: i128 },
    DateTimeLiteral { seconds: i64, offset_minutes: i16 },
    DateLiteral { seconds: i64, offset_minutes: i16 },
    TimeLiteral { seconds: i64, offset_minutes: i16 },
    /// Stands in the graph-name position of a default-graph triple.
    DefaultGraph,
}

impl Term {
    pub open spec fn spec_is_named_or_blank(&self) -> bool {
        self is NamedNode || self is BlankNode
    }
}

impl Clone for Term {
    fn clone(&self) -> (r: Term)
        ensures
            r == *self,
    {
        match self {
            Term::NamedNode { iri } => Term::NamedNode { iri: iri.clone() },
            Term::BlankNode { id } => Term::BlankNode { id: *id },
            Term::StringLiteral { value } => Term::StringLiteral { value: value.clone() },
            Term::LangStringLiteral { value, language } => Term::LangStringLiteral {
                value: value.clone(),
                language: language.clone(),
            },
            Term::TypedLiteral { value, datatype } => Term::TypedLiteral {
                value: value.clone(),
                datatype: datatype.clone(),
            },
            Term::BooleanLiteral { value } => Term::BooleanLiteral { value: *value },
            Term::FloatLiteral { bits } => Term::FloatLiteral { bits: *bits },
            Term::DoubleLiteral { bits } => Term::DoubleLiteral { bits: *bits },
            Term::IntegerLiteral { value } => Term::IntegerLiteral { value: *value },
            Term::DecimalLiteral { value } => Term::DecimalLiteral { value: *value },
            Term::DateTimeLiteral { seconds, offset_minutes } => Term::DateTimeLiteral {
                seconds: *seconds,
                offset_minutes: *offset_minutes,
            },
            Term::DateLiteral { seconds, offset_minutes } => Term::DateLiteral {
                seconds: *seconds,
                offset_minutes: *offset_minutes,
            },
            Term::TimeLiteral { seconds, offset_minutes } => Term::TimeLiteral {
                seconds: *seconds,
                offset_minutes: *offset_minutes,
            },
            Term::DefaultGraph => Term::DefaultGraph,
        }
    }
}

/// A decoded quad; the graph name may be the default-graph marker.
#[derive(Debug)]
pub struct Quad {
    pub subject: Term,
    pub predicate: Term,
    pub object: Term,
    pub graph_name: Term,
}

impl Quad {
    /// Positional constraints of an RDF quad.
    pub open spec fn wf(&self) -> bool {
        &&& self.subject.spec_is_named_or_blank()
        &&& self.predicate is NamedNode
        &&& !(self.object is DefaultGraph)
        &&& (self.graph_name.spec_is_named_or_blank() || self.graph_name is DefaultGraph)
    }

    pub fn new(subject: Term, predicate: Term, object: Term, graph_name: Term) -> (r: Quad)
        ensures
            r == (Quad { subject, predicate, object, graph_name }),
    {
        Quad { subject, predicate, object, graph_name }
    }
}

impl Clone for Quad {
    fn clone(&self) -> (r: Quad)
        ensures
            r == *self,
    {
        Quad {
            subject: self.subject.clone(),
            predicate: self.predicate.clone(),
            object: self.object.clone(),
            graph_name: self.graph_name.clone(),
        }
    }
}

/// `e` is the encoding of the decoded term `t`: strings of at most 15
/// UTF-8 bytes are inlined, longer ones referenced by hash; datatype IRIs
/// are always referenced by hash.
pub open spec fn encodes_model_term(t: Term, e: EncodedTerm) -> bool {
    match t {
        Term::NamedNode { iri } => e == (EncodedTerm::NamedNode {
            iri_id: StrHash { hash: spec_str_hash(iri@) },
        }),
        Term::BlankNode { id } => e == (EncodedTerm::NumericalBlankNode { id }),
        Term::StringLiteral { value } => {
            if encode_utf8(value@).len() <= 15 {
                e matches EncodedTerm::SmallStringLiteral { value: v } && v.wf() && v@
                    == encode_utf8(value@)
            } else {
                e == (EncodedTerm::BigStringLiteral {
                    value_id: StrHash { hash: spec_str_hash(value@) },
                })
            }
        },
        Term::LangStringLiteral { value, language } => {
            if encode_utf8(value@).len() <= 15 && encode_utf8(language@).len() <= 15 {
                e matches EncodedTerm::SmallSmallLangStringLiteral { value: v, language: l }
                    && v.wf() && v@ == encode_utf8(value@) && l.wf() && l@ == encode_utf8(
                    language@,
                )
            } else if encode_utf8(value@).len() <= 15 {
                e matches EncodedTerm::SmallBigLangStringLiteral { value: v, language_id }
                    && v.wf() && v@ == encode_utf8(value@) && language_id.hash == spec_str_hash(
                    language@,
                )
            } else if encode_utf8(language@).len() <= 15 {
                e matches EncodedTerm::BigSmallLangStringLiteral { value_id, language: l }
                    && value_id.hash == spec_str_hash(value@) && l.wf() && l@ == encode_utf8(
                    language@,
                )
            } else {
                e matches EncodedTerm::BigBigLangStringLiteral { value_id, language_id }
                    && value_id.hash == spec_str_hash(value@) && language_id.hash == spec_str_hash(
                    language@,
                )
            }
        },
        Term::TypedLiteral { value, datatype } => {
            if encode_utf8(value@).len() <= 15 {
                e matches EncodedTerm::SmallTypedLiteral { value: v, datatype_id } && v.wf() && v@
                    == encode_utf8(value@) && datatype_id.hash == spec_str_hash(datatype@)
            } else {
                e matches EncodedTerm::BigTypedLiteral { value_id, datatype_id }
                    && value_id.hash == spec_str_hash(value@) && datatype_id.hash == spec_str_hash(
                    datatype@,
                )
            }
        },
        Term::BooleanLiteral { value } => e == (EncodedTerm::BooleanLiteral { value }),
        Term::FloatLiteral { bits } => e == (EncodedTerm::FloatLiteral { bits }),
        Term::DoubleLiteral { bits } => e == (EncodedTerm::DoubleLiteral { bits }),
        Term::IntegerLiteral { value } => e == (EncodedTerm::IntegerLiteral { value }),
        Term::DecimalLiteral { value } => e == (EncodedTerm::DecimalLiteral { value }),
        Term::DateTimeLiteral { seconds, offset_minutes } => e == (EncodedTerm::DateTimeLiteral {
            seconds,
            offset_minutes,
        }),
        Term::DateLiteral { seconds, offset_minutes } => e == (EncodedTerm::DateLiteral {
            seconds,
            offset_minutes,
        }),
        Term::TimeLiteral { seconds, offset_minutes } => e == (EncodedTerm::TimeLiteral {
            seconds,
            offset_minutes,
        }),
        Term::DefaultGraph => e == EncodedTerm::DefaultGraph,
    }
}

/// A decoded term has exactly one encoding: the inline packing is
/// canonical and hashes are functions of the string.
pub proof fn lemma_encodes_model_term_functional(t: Term, e1: EncodedTerm, e2: EncodedTerm)
    requires
        encodes_model_term(t, e1),
        encodes_model_term(t, e2),
    ensures
        e1 == e2,
{
    match t {
        Term::StringLiteral { value } => {
            if encode_utf8(value@).len() <= 15 {
                crate::small_string::lemma_small_string_canonical(
                    e1->SmallStringLiteral_value,
                    e2->SmallStringLiteral_value,
                );
            }
        },
        Term::LangStringLiteral { value, language } => {
            if encode_utf8(value@).len() <= 15 && encode_utf8(language@).len() <= 15 {
                crate::small_string::lemma_small_string_canonical(
                    e1->SmallSmallLangStringLiteral_value,
                    e2->SmallSmallLangStringLiteral_value,
                );
                crate::small_string::lemma_small_string_canonical(
                    e1->SmallSmallLangStringLiteral_language,
                    e2->SmallSmallLangStringLiteral_language,
                );
            } else if encode_utf8(value@).len() <= 15 {
                crate::small_string::lemma_small_string_canonical(
                    e1->SmallBigLangStringLiteral_value,
                    e2->SmallBigLangStringLiteral_value,
                );
            } else if encode_utf8(language@).len() <= 15 {
                crate::small_string::lemma_small_string_canonical(
                    e1->BigSmallLangStringLiteral_language,
                    e2->BigSmallLangStringLiteral_language,
                );
            }
        },
        Term::TypedLiteral { value, datatype } => {
            if encode_utf8(value@).len() <= 15 {
                crate::small_string::lemma_small_string_canonical(
                    e1->SmallTypedLiteral_value,
                    e2->SmallTypedLiteral_value,
                );
            }
        },
        _ => {},
    }
}

/// The encoding of a well-formed decoded term is well formed and stands
/// in the same positional class.
pub proof fn lemma_encodes_model_term_wf(t: Term, e: EncodedTerm)
    requires
        encodes_model_term(t, e),
    ensures
        e.wf(),
        t.spec_is_named_or_blank() == e.spec_is_named_or_blank(),
        (t is DefaultGraph) == (e is DefaultGraph),
        (t is NamedNode) == (e is NamedNode),
{
}

/// `e` encodes `q` position by position.
pub open spec fn encodes_model_quad(q: Quad, e: EncodedQuad) -> bool {
    &&& encodes_model_term(q.subject, e.subject)
    &&& encodes_model_term(q.predicate, e.predicate)
    &&& encodes_model_term(q.object, e.object)
    &&& encodes_model_term(q.graph_name, e.graph_name)
}

/// A decoded quad has exactly one encoding.
pub proof fn lemma_encodes_model_quad_functional(q: Quad, e1: EncodedQuad, e2: EncodedQuad)
    requires
        encodes_model_quad(q, e1),
        encodes_model_quad(q, e2),
    ensures
        e1 == e2,
{
    lemma_encodes_model_term_functional(q.subject, e1.subject, e2.subject);
    lemma_encodes_model_term_functional(q.predicate, e1.predicate, e2.predicate);
    lemma_encodes_model_term_functional(q.object, e1.object, e2.object);
    lemma_encodes_model_term_functional(q.graph_name, e1.graph_name, e2.graph_name);
}

/// The encoding of a well-formed decoded quad is well formed, and is a
/// default-graph quad exactly when the decoded quad is.
pub proof fn lemma_encodes_model_quad_wf(q: Quad, e: EncodedQuad)
    requires
        q.wf(),
        encodes_model_quad(q, e),
    ensures
        e.wf(),
        (q.graph_name is DefaultGraph) == (e.graph_name is DefaultGraph),
{
    lemma_encodes_model_term_wf(q.subject, e.subject);
    lemma_encodes_model_term_wf(q.predicate, e.predicate);
    lemma_encodes_model_term_wf(q.object, e.object);
    lemma_encodes_model_term_wf(q.graph_name, e.graph_name);
}

/// The UTF-8 byte length of a string.
fn byte_len(s: &str) -> (r: usize)
    ensures
        r == encode_utf8(s@).len(),
{
    let b = s.as_bytes();
    proof {
        assert(b@ == encode_utf8(s@));
    }
    b.len()
}

/// Packs a string of at most 15 bytes; the caller has checked the length.
fn small_of(s: &str) -> (r: SmallString)
    requires
        encode_utf8(s@).len() <= 15,
    ensures
        r.wf(),
        r@ == encode_utf8(s@),
{
    let bytes = s.as_bytes();
    match SmallString::from_bytes(bytes) {
        Some(ss) => ss,
        None => vstd::pervasive::unreached(),
    }
}

/// Computes the encoding of a decoded term without touching the
/// dictionary; used where nothing new may be interned.
pub fn encode_model_term(t: &Term) -> (r: EncodedTerm)
    ensures
        encodes_model_term(*t, r),
{
    match t {
        Term::NamedNode { iri } => EncodedTerm::NamedNode { iri_id: str_hash(iri.as_str()) },
        Term::BlankNode { id } => EncodedTerm::NumericalBlankNode { id: *id },
        Term::StringLiteral { value } => {
            if byte_len(value.as_str()) <= 15 {
                EncodedTerm::SmallStringLiteral { value: small_of(value.as_str()) }
            } else {
                EncodedTerm::BigStringLiteral { value_id: str_hash(value.as_str()) }
            }
        },
        Term::LangStringLiteral { value, language } => {
            let value_small = byte_len(value.as_str()) <= 15;
            let language_small = byte_len(language.as_str()) <= 15;
            if value_small && language_small {
                EncodedTerm::SmallSmallLangStringLiteral {
                    value: small_of(value.as_str()),
                    language: small_of(language.as_str()),
                }
            } else if value_small {
                EncodedTerm::SmallBigLangStringLiteral {
                    value: small_of(value.as_str()),
                    language_id: str_hash(language.as_str()),
                }
            } else if language_small {
                EncodedTerm::BigSmallLangStringLiteral {
                    value_id: str_hash(value.as_str()),
                    language: small_of(language.as_str()),
                }
            } else {
                EncodedTerm::BigBigLangStringLiteral {
                    value_id: str_hash(value.as_str()),
                    language_id: str_hash(language.as_str()),
                }
            }
        },
        Term::TypedLiteral { value, datatype } => {
            if byte_len(value.as_str()) <= 15 {
                EncodedTerm::SmallTypedLiteral {
                    value: small_of(value.as_str()),
                    datatype_id: str_hash(datatype.as_str()),
                }
            } else {
                EncodedTerm::BigTypedLiteral {
                    value_id: str_hash(value.as_str()),
                    datatype_id: str_hash(datatype.as_str()),
                }
            }
        },
        Term::BooleanLiteral { value } => EncodedTerm::BooleanLiteral { value: *value },
        Term::FloatLiteral { bits } => EncodedTerm::FloatLiteral { bits: *bits },
        Term::DoubleLiteral { bits } => EncodedTerm::DoubleLiteral { bits: *bits },
        Term::IntegerLiteral { value } => EncodedTerm::IntegerLiteral { value: *value },
        Term::DecimalLiteral { value } => EncodedTerm::DecimalLiteral { value: *value },
        Term::DateTimeLiteral { seconds, offset_minutes } => EncodedTerm::DateTimeLiteral {
            seconds: *seconds,
            offset_minutes: *offset_minutes,
        },
        Term::DateLiteral { seconds, offset_minutes } => EncodedTerm::DateLiteral {
            seconds: *seconds,
            offset_minutes: *offset_minutes,
        },
        Term::TimeLiteral { seconds, offset_minutes } => EncodedTerm::TimeLiteral {
            seconds: *seconds,
            offset_minutes: *offset_minutes,
        },
        Term::DefaultGraph => EncodedTerm::DefaultGraph,
    }
}

/// Computes the encoding of a whole decoded quad without interning.
pub fn encode_model_quad(q: &Quad) -> (r: EncodedQuad)
    ensures
        encodes_model_quad(*q, r),
{
    EncodedQuad {
        subject: encode_model_term(&q.subject),
        predicate: encode_model_term(&q.predicate),
        object: encode_model_term(&q.object),
        graph_name: encode_model_term(&q.graph_name),
    }
}

/// The dictionary maps the hash of `s` to a different string: interning
/// `s` there would be a 128-bit hash collision between distinct strings.
pub open spec fn str_collides(m: Map<u128, Seq<char>>, s: Seq<char>) -> bool {
    m.contains_key(spec_str_hash(s)) && m[spec_str_hash(s)] != s
}

/// `s` is one of the strings that encoding `t` interns by hash: an IRI,
/// a literal value or language tag of more than 15 UTF-8 bytes, or a
/// datatype IRI.
pub open spec fn term_interns(t: Term, s: Seq<char>) -> bool {
    match t {
        Term::NamedNode { iri } => s == iri@,
        Term::StringLiteral { value } => encode_utf8(value@).len() > 15 && s == value@,
        Term::LangStringLiteral { value, language } => (encode_utf8(value@).len() > 15 && s
            == value@) || (encode_utf8(language@).len() > 15 && s == language@),
        Term::TypedLiteral { value, datatype } => (encode_utf8(value@).len() > 15 && s == value@)
            || s == datatype@,
        _ => false,
    }
}

/// `s` is one of the strings that encoding `q` interns, over all four
/// positions.
pub open spec fn quad_interns(q: Quad, s: Seq<char>) -> bool {
    term_interns(q.subject, s) || term_interns(q.predicate, s) || term_interns(q.object, s)
        || term_interns(q.graph_name, s)
}

/// Interning the strings of `t` into a dictionary with contents `m` hits
/// a hash collision between distinct strings: an interned string against
/// an existing entry, or two interned strings against each other.
pub open spec fn term_collision(m: Map<u128, Seq<char>>, t: Term) -> bool {
    (exists|s: Seq<char>| #[trigger] term_interns(t, s) && str_collides(m, s)) || (exists|
        s1: Seq<char>,
        s2: Seq<char>,
    |
        #[trigger] term_interns(t, s1) && #[trigger] term_interns(t, s2) && s1 != s2
            && spec_str_hash(s1) == spec_str_hash(s2))
}

/// Interning the strings of all four positions of `q` into a dictionary
/// with contents `m` hits a hash collision between distinct strings.
/// This is the one condition under which a quad cannot be stored.
pub open spec fn quad_collision(m: Map<u128, Seq<char>>, q: Quad) -> bool {
    (exists|s: Seq<char>| #[trigger] quad_interns(q, s) && str_collides(m, s)) || (exists|
        s1: Seq<char>,
        s2: Seq<char>,
    |
        #[trigger] quad_interns(q, s1) && #[trigger] quad_interns(q, s2) && s1 != s2
            && spec_str_hash(s1) == spec_str_hash(s2))
}

/// Encodes a decoded term and interns every string the encoding refers
/// to by hash, so that invariant 4 of the store can be maintained. It
/// fails exactly on a hash collision between distinct strings, and even
/// then adds only entries that map an interned string's own hash to that
/// string.
pub fn insert_term(t: &Term, dict: &mut Dictionary) -> (r: Result<EncodedTerm, StorageError>)
    requires
        old(dict).wf(),
    ensures
        final(dict).wf(),
        old(dict)@.dom() <= final(dict)@.dom(),
        forall|h: u128| old(dict)@.contains_key(h) ==> final(dict)@[h] == old(dict)@[h],
        forall|h: u128|
            #[trigger] final(dict)@.contains_key(h) ==> old(dict)@.contains_key(h) || (exists|
                s: Seq<char>,
            |
                #[trigger] term_interns(*t, s) && spec_str_hash(s) == h && final(dict)@[h] == s),
        r is Err <==> term_collision(old(dict)@, *t),
        r is Ok ==> forall|s: Seq<char>|
            #[trigger] term_interns(*t, s) ==> final(dict)@.contains_key(spec_str_hash(s))
                && final(dict)@[spec_str_hash(s)] == s,
        r matches Ok(e) ==> encodes_model_term(*t, e) && e.hash_refs() <= final(dict)@.dom(),
{
    let e = encode_model_term(t);
    let ghost m0 = dict@;
    match t {
        Term::NamedNode { iri } => {
            let h = str_hash(iri.as_str());
            match dict.put(h, iri.clone()) {
                Ok(_) => {
                    proof {
                        lemma_one_string_interned(m0, dict@, *t, iri@);
                    }
                    Ok(e)
                },
                Err(err) => {
                    proof {
                        assert(term_interns(*t, iri@));
                        assert(str_collides(m0, iri@));
                    }
                    Err(err)
                },
            }
        },
        Term::StringLiteral { value } => {
            if byte_len(value.as_str()) <= 15 {
                proof {
                    lemma_no_string_interned(m0, *t);
                }
                Ok(e)
            } else {
                let h = str_hash(value.as_str());
                match dict.put(h, value.clone()) {
                    Ok(_) => {
                        proof {
                            lemma_one_string_interned(m0, dict@, *t, value@);
                        }
                        Ok(e)
                    },
                    Err(err) => {
                        proof {
                            assert(term_interns(*t, value@));
                            assert(str_collides(m0, value@));
                        }
                        Err(err)
                    },
                }
            }
        },
        Term::LangStringLiteral { value, language } => {
            let vbig = byte_len(value.as_str()) > 15;
            let lbig = byte_len(language.as_str()) > 15;
            if vbig {
                let h = str_hash(value.as_str());
                match dict.put(h, value.clone()) {
                    Ok(_) => {},
                    Err(err) => {
                        proof {
                            assert(term_interns(*t, value@));
                            assert(str_collides(m0, value@));
                        }
                        return Err(err);
                    },
                }
            }
            let ghost m1 = dict@;
            if lbig {
                let h = str_hash(language.as_str());
                match dict.put(h, language.clone()) {
                    Ok(_) => {},
                    Err(err) => {
                        proof {
                            assert(term_interns(*t, language@));
                            lemma_second_put_collision(m0, m1, *t, value@, language@, vbig);
                            assert forall|h: u128| #[trigger] dict@.contains_key(h) implies
                                m0.contains_key(h) || (exists|s: Seq<char>|
                                #[trigger] term_interns(*t, s) && spec_str_hash(s) == h && dict@[h]
                                    == s) by {
                                if !m0.contains_key(h) {
                                    assert(vbig);
                                    assert(term_interns(*t, value@) && spec_str_hash(value@) == h
                                        && dict@[h] == value@);
                                }
                            }
                        }
                        return Err(err);
                    },
                }
            }
            proof {
                lemma_two_strings_interned(m0, m1, dict@, *t, value@, language@, vbig, lbig);
            }
            Ok(e)
        },
        Term::TypedLiteral { value, datatype } => {
            let vbig = byte_len(value.as_str()) > 15;
            if vbig {
                let h = str_hash(value.as_str());
                match dict.put(h, value.clone()) {
                    Ok(_) => {},
                    Err(err) => {
                        proof {
                            assert(term_interns(*t, value@));
                            assert(str_collides(m0, value@));
                        }
                        return Err(err);
                    },
                }
            }
            let ghost m1 = dict@;
            let h = str_hash(datatype.as_str());
            match dict.put(h, datatype.clone()) {
                Ok(_) => {
                    proof {
                        lemma_two_strings_interned(
                            m0,
                            m1,
                            dict@,
                            *t,
                            value@,
                            datatype@,
                            vbig,
                            true,
                        );
                    }
                    Ok(e)
                },
                Err(err) => {
                    proof {
                        assert(term_interns(*t, datatype@));
                        lemma_second_put_collision(m0, m1, *t, value@, datatype@, vbig);
                        assert forall|h: u128| #[trigger] dict@.contains_key(h) implies
                            m0.contains_key(h) || (exists|s: Seq<char>|
                            #[trigger] term_interns(*t, s) && spec_str_hash(s) == h && dict@[h]
                                == s) by {
                            if !m0.contains_key(h) {
                                assert(vbig);
                                assert(term_interns(*t, value@) && spec_str_hash(value@) == h
                                    && dict@[h] == value@);
                            }
                        }
                    }
                    Err(err)
                },
            }
        },
        _ => {
            proof {
                lemma_no_string_interned(m0, *t);
            }
            Ok(e)
        },
    }
}

/// A term that interns nothing cannot collide.
proof fn lemma_no_string_interned(m0: Map<u128, Seq<char>>, t: Term)
    requires
        forall|s: Seq<char>| !(#[trigger] term_interns(t, s)),
    ensures
        !term_collision(m0, t),
{
}

/// After the single successful interning of `x`, the dictionary maps
/// every interned string of `t` to itself, no collision happened, and
/// the only possible addition is `x` under its own hash.
proof fn lemma_one_string_interned(
    m0: Map<u128, Seq<char>>,
    m1: Map<u128, Seq<char>>,
    t: Term,
    x: Seq<char>,
)
    requires
        forall|s: Seq<char>| #[trigger] term_interns(t, s) ==> s == x,
        term_interns(t, x),
        m1 == m0.insert(spec_str_hash(x), x),
        m0.contains_key(spec_str_hash(x)) ==> m0[spec_str_hash(x)] == x,
    ensures
        !term_collision(m0, t),
        forall|s: Seq<char>|
            #[trigger] term_interns(t, s) ==> m1.contains_key(spec_str_hash(s)) && m1[spec_str_hash(
                s,
            )] == s,
        forall|h: u128|
            #[trigger] m1.contains_key(h) ==> m0.contains_key(h) || (exists|s: Seq<char>|
                #[trigger] term_interns(t, s) && spec_str_hash(s) == h && m1[h] == s),
{
    assert forall|h: u128| #[trigger] m1.contains_key(h) implies m0.contains_key(h) || (exists|
        s: Seq<char>,
    |
        #[trigger] term_interns(t, s) && spec_str_hash(s) == h && m1[h] == s) by {
        if !m0.contains_key(h) {
            assert(term_interns(t, x) && spec_str_hash(x) == h && m1[h] == x);
        }
    }
}

/// A failed second interning of `y`, after `x` went in first when
/// `xbig`, is a collision against the original dictionary: either `y`
/// collides with an old entry, or `x` and `y` collide with each other.
proof fn lemma_second_put_collision(
    m0: Map<u128, Seq<char>>,
    m1: Map<u128, Seq<char>>,
    t: Term,
    x: Seq<char>,
    y: Seq<char>,
    xbig: bool,
)
    requires
        m1 == if xbig {
            m0.insert(spec_str_hash(x), x)
        } else {
            m0
        },
        xbig ==> term_interns(t, x),
        term_interns(t, y),
        m1.contains_key(spec_str_hash(y)),
        m1[spec_str_hash(y)] != y,
    ensures
        term_collision(m0, t),
{
    let hy = spec_str_hash(y);
    if xbig && hy == spec_str_hash(x) && !(m0.contains_key(hy) && m0[hy] != y) {
        if m0.contains_key(hy) {
            assert(m0[hy] == y);
            assert(m1[hy] == x);
            assert(x != y);
        } else {
            assert(m1[hy] == x);
            assert(x != y);
        }
        assert(term_interns(t, x) && term_interns(t, y) && x != y && spec_str_hash(x)
            == spec_str_hash(y));
    } else {
        assert(str_collides(m0, y));
    }
}

/// After the successful interning of `x` (when `xbig`) and then `y`
/// (when `ybig`), the dictionary maps every interned string of `t` to
/// itself, no collision happened, and the only additions are `x` and `y`
/// under their own hashes.
proof fn lemma_two_strings_interned(
    m0: Map<u128, Seq<char>>,
    m1: Map<u128, Seq<char>>,
    m2: Map<u128, Seq<char>>,
    t: Term,
    x: Seq<char>,
    y: Seq<char>,
    xbig: bool,
    ybig: bool,
)
    requires
        forall|s: Seq<char>| #[trigger] term_interns(t, s) ==> (xbig && s == x) || (ybig && s == y),
        xbig ==> term_interns(t, x),
        ybig ==> term_interns(t, y),
        m1 == if xbig {
            m0.insert(spec_str_hash(x), x)
        } else {
            m0
        },
        xbig ==> (m0.contains_key(spec_str_hash(x)) ==> m0[spec_str_hash(x)] == x),
        m2 == if ybig {
            m1.insert(spec_str_hash(y), y)
        } else {
            m1
        },
        ybig ==> (m1.contains_key(spec_str_hash(y)) ==> m1[spec_str_hash(y)] == y),
    ensures
        !term_collision(m0, t),
        forall|s: Seq<char>|
            #[trigger] term_interns(t, s) ==> m2.contains_key(spec_str_hash(s)) && m2[spec_str_hash(
                s,
            )] == s,
        forall|h: u128|
            #[trigger] m2.contains_key(h) ==> m0.contains_key(h) || (exists|s: Seq<char>|
                #[trigger] term_interns(t, s) && spec_str_hash(s) == h && m2[h] == s),
{
    let hx = spec_str_hash(x);
    let hy = spec_str_hash(y);
    if xbig && ybig && hx == hy {
        assert(m1.contains_key(hy) && m1[hy] == x);
        assert(x == y);
    }
    assert forall|s: Seq<char>| #[trigger] term_interns(t, s) implies m2.contains_key(
        spec_str_hash(s),
    ) && m2[spec_str_hash(s)] == s by {
        if xbig && s == x {
            if ybig && hy == hx {
                assert(m2[hx] == y);
            } else {
                assert(m2[hx] == m1[hx]);
            }
        }
    }
    assert forall|s: Seq<char>| #[trigger] term_interns(t, s) implies !str_collides(m0, s) by {
        if xbig && s == x {
        } else {
            assert(ybig && s == y);
            if m0.contains_key(hy) && m0[hy] != y {
                if xbig && hx == hy {
                    assert(m0[hx] == x);
                    assert(m1[hy] == x);
                    assert(x == y);
                } else {
                    assert(m1.contains_key(hy) && m1[hy] == m0[hy]);
                }
            }
        }
    }
    assert forall|s1: Seq<char>, s2: Seq<char>|
        #[trigger] term_interns(t, s1) && #[trigger] term_interns(t, s2) && s1 != s2 implies
        spec_str_hash(s1) != spec_str_hash(s2) by {}
    assert forall|h: u128| #[trigger] m2.contains_key(h) implies m0.contains_key(h) || (exists|
        s: Seq<char>,
    |
        #[trigger] term_interns(t, s) && spec_str_hash(s) == h && m2[h] == s) by {
        if !m0.contains_key(h) {
            if ybig && h == hy {
                assert(term_interns(t, y) && spec_str_hash(y) == h && m2[h] == y);
            } else {
                assert(xbig && h == hx);
                assert(m2[h] == m1[h] || (ybig && h == hy));
                assert(m2[h] == x);
                assert(term_interns(t, x) && spec_str_hash(x) == h && m2[h] == x);
            }
        }
    }
}

/// Lifts a collision met while interning one position of `q`, after
/// earlier positions went in cleanly, to a collision of the whole quad
/// against the original dictionary.
proof fn lemma_position_collision_lifts(
    m0: Map<u128, Seq<char>>,
    mk: Map<u128, Seq<char>>,
    q: Quad,
    t: Term,
)
    requires
        forall|s: Seq<char>| #[trigger] term_interns(t, s) ==> quad_interns(q, s),
        term_collision(mk, t),
        forall|h: u128| #[trigger] m0.contains_key(h) ==> mk.contains_key(h) && mk[h] == m0[h],
        forall|h: u128|
            #[trigger] mk.contains_key(h) ==> m0.contains_key(h) || (exists|s: Seq<char>|
                #[trigger] quad_interns(q, s) && spec_str_hash(s) == h && mk[h] == s),
    ensures
        quad_collision(m0, q),
{
    if exists|s: Seq<char>| #[trigger] term_interns(t, s) && str_collides(mk, s) {
        let s = choose|s: Seq<char>| #[trigger] term_interns(t, s) && str_collides(mk, s);
        let h = spec_str_hash(s);
        assert(quad_interns(q, s));
        if m0.contains_key(h) {
            assert(mk[h] == m0[h]);
            assert(str_collides(m0, s));
        } else {
            let s2 = choose|s2: Seq<char>|
                #[trigger] quad_interns(q, s2) && spec_str_hash(s2) == h && mk[h] == s2;
            assert(s2 != s && spec_str_hash(s2) == spec_str_hash(s));
        }
    } else {
        let (s1, s2) = choose|s1: Seq<char>, s2: Seq<char>|
            #[trigger] term_interns(t, s1) && #[trigger] term_interns(t, s2) && s1 != s2
                && spec_str_hash(s1) == spec_str_hash(s2);
        assert(quad_interns(q, s1) && quad_interns(q, s2));
    }
}

/// Folds one position's interning into the accumulated picture: the
/// dictionary still extends the original one, and every addition still
/// maps a quad string's own hash to that string.
proof fn lemma_interning_compose_step(
    m0: Map<u128, Seq<char>>,
    ma: Map<u128, Seq<char>>,
    mb: Map<u128, Seq<char>>,
    q: Quad,
    t: Term,
)
    requires
        forall|s: Seq<char>| #[trigger] term_interns(t, s) ==> quad_interns(q, s),
        forall|h: u128| #[trigger] m0.contains_key(h) ==> ma.contains_key(h) && ma[h] == m0[h],
        forall|h: u128|
            #[trigger] ma.contains_key(h) ==> m0.contains_key(h) || (exists|s: Seq<char>|
                #[trigger] quad_interns(q, s) && spec_str_hash(s) == h && ma[h] == s),
        forall|h: u128| #[trigger] ma.contains_key(h) ==> mb.contains_key(h) && mb[h] == ma[h],
        forall|h: u128|
            #[trigger] mb.contains_key(h) ==> ma.contains_key(h) || (exists|s: Seq<char>|
                #[trigger] term_interns(t, s) && spec_str_hash(s) == h && mb[h] == s),
    ensures
        forall|h: u128| #[trigger] m0.contains_key(h) ==> mb.contains_key(h) && mb[h] == m0[h],
        forall|h: u128|
            #[trigger] mb.contains_key(h) ==> m0.contains_key(h) || (exists|s: Seq<char>|
                #[trigger] quad_interns(q, s) && spec_str_hash(s) == h && mb[h] == s),
{
    assert forall|h: u128| #[trigger] mb.contains_key(h) implies m0.contains_key(h) || (exists|
        s: Seq<char>,
    |
        #[trigger] quad_interns(q, s) && spec_str_hash(s) == h && mb[h] == s) by {
        if !m0.contains_key(h) {
            if ma.contains_key(h) {
                let s = choose|s: Seq<char>|
                    #[trigger] quad_interns(q, s) && spec_str_hash(s) == h && ma[h] == s;
                assert(mb[h] == ma[h]);
                assert(quad_interns(q, s) && spec_str_hash(s) == h && mb[h] == s);
            } else {
                let s = choose|s: Seq<char>|
                    #[trigger] term_interns(t, s) && spec_str_hash(s) == h && mb[h] == s;
                assert(quad_interns(q, s) && spec_str_hash(s) == h && mb[h] == s);
            }
        }
    }
}

/// A dictionary that maps every interned string of `q` to itself while
/// keeping the original entries unchanged rules a collision out.
proof fn lemma_quad_no_collision(m0: Map<u128, Seq<char>>, m4: Map<u128, Seq<char>>, q: Quad)
    requires
        forall|h: u128| #[trigger] m0.contains_key(h) ==> m4.contains_key(h) && m4[h] == m0[h],
        forall|s: Seq<char>|
            #[trigger] quad_interns(q, s) ==> m4.contains_key(spec_str_hash(s)) && m4[spec_str_hash(
                s,
            )] == s,
    ensures
        !quad_collision(m0, q),
{
    assert forall|s: Seq<char>| #[trigger] quad_interns(q, s) implies !str_collides(m0, s) by {
        if m0.contains_key(spec_str_hash(s)) {
            assert(m4[spec_str_hash(s)] == m0[spec_str_hash(s)]);
            assert(m4[spec_str_hash(s)] == s);
        }
    }
    assert forall|s1: Seq<char>, s2: Seq<char>|
        #[trigger] quad_interns(q, s1) && #[trigger] quad_interns(q, s2) && spec_str_hash(s1)
            == spec_str_hash(s2) implies s1 == s2 by {
        assert(m4[spec_str_hash(s1)] == s1);
        assert(m4[spec_str_hash(s2)] == s2);
    }
}

/// Encodes a decoded quad, interning the strings of all four positions.
/// It fails exactly on a hash collision between distinct strings of the
/// quad and the dictionary, and even then adds only entries mapping a
/// quad string's own hash to that string.
pub fn insert_quad_terms(q: &Quad, dict: &mut Dictionary) -> (r: Result<
    EncodedQuad,
    StorageError,
>)
    requires
        old(dict).wf(),
    ensures
        final(dict).wf(),
        old(dict)@.dom() <= final(dict)@.dom(),
        forall|h: u128| old(dict)@.contains_key(h) ==> final(dict)@[h] == old(dict)@[h],
        forall|h: u128|
            #[trigger] final(dict)@.contains_key(h) ==> old(dict)@.contains_key(h) || (exists|
                s: Seq<char>,
            |
                #[trigger] quad_interns(*q, s) && spec_str_hash(s) == h && final(dict)@[h] == s),
        r is Err <==> quad_collision(old(dict)@, *q),
        r is Ok ==> forall|s: Seq<char>|
            #[trigger] quad_interns(*q, s) ==> final(dict)@.contains_key(spec_str_hash(s))
                && final(dict)@[spec_str_hash(s)] == s,
        r matches Ok(e) ==> encodes_model_quad(*q, e) && e.hash_refs() <= final(dict)@.dom(),
{
    let ghost m0 = dict@;
    let subject = match insert_term(&q.subject, dict) {
        Ok(e) => e,
        Err(err) => {
            proof {
                lemma_position_collision_lifts(m0, m0, *q, q.subject);
                lemma_interning_compose_step(m0, m0, dict@, *q, q.subject);
            }
            return Err(err);
        },
    };
    let ghost m1 = dict@;
    proof {
        lemma_interning_compose_step(m0, m0, m1, *q, q.subject);
    }
    let predicate = match insert_term(&q.predicate, dict) {
        Ok(e) => e,
        Err(err) => {
            proof {
                lemma_position_collision_lifts(m0, m1, *q, q.predicate);
                lemma_interning_compose_step(m0, m1, dict@, *q, q.predicate);
            }
            return Err(err);
        },
    };
    let ghost m2 = dict@;
    proof {
        lemma_interning_compose_step(m0, m1, m2, *q, q.predicate);
    }
    let object = match insert_term(&q.object, dict) {
        Ok(e) => e,
        Err(err) => {
            proof {
                lemma_position_collision_lifts(m0, m2, *q, q.object);
                lemma_interning_compose_step(m0, m2, dict@, *q, q.object);
            }
            return Err(err);
        },
    };
    let ghost m3 = dict@;
    proof {
        lemma_interning_compose_step(m0, m2, m3, *q, q.object);
    }
    let graph_name = match insert_term(&q.graph_name, dict) {
        Ok(e) => e,
        Err(err) => {
            proof {
                lemma_position_collision_lifts(m0, m3, *q, q.graph_name);
                lemma_interning_compose_step(m0, m3, dict@, *q, q.graph_name);
            }
            return Err(err);
        },
    };
    let ghost m4 = dict@;
    proof {
        lemma_interning_compose_step(m0, m3, m4, *q, q.graph_name);
        assert forall|s: Seq<char>| #[trigger] quad_interns(*q, s) implies m4.contains_key(
            spec_str_hash(s),
        ) && m4[spec_str_hash(s)] == s by {
            let h = spec_str_hash(s);
            if term_interns(q.subject, s) {
                assert(m1.contains_key(h) && m1[h] == s);
                assert(m2.contains_key(h) && m2[h] == s);
                assert(m3.contains_key(h) && m3[h] == s);
            } else if term_interns(q.predicate, s) {
                assert(m2.contains_key(h) && m2[h] == s);
                assert(m3.contains_key(h) && m3[h] == s);
            } else if term_interns(q.object, s) {
                assert(m3.contains_key(h) && m3[h] == s);
            }
        }
        lemma_quad_no_collision(m0, m4, *q);
    }
    Ok(EncodedQuad { subject, predicate, object, graph_name })
}

} // verus!
