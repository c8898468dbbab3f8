//! The bulk-load pipeline: batches are deduplicated and encoded into
//! per-column sorted sets by a `FileBulkLoader`, then ingested into the
//! store in one step, bypassing the transactional writer.

use vstd::prelude::*;

use crate::dictionary::{lemma_dict_map_domain, lemma_dict_map_value, Dictionary};
use crate::error::StorageError;
use crate::model::{
    encodes_model_quad, encodes_model_term, insert_quad_terms, lemma_encodes_model_quad_functional,
    lemma_encodes_model_quad_wf, lemma_encodes_model_term_functional, lemma_encodes_model_term_wf,
    quad_collision, quad_interns, str_collides, Quad,
};
use crate::numeric_encoder::{spec_str_hash, EncodedQuad, EncodedTerm};
use crate::storage::Storage;
use vstd::seq_lib::group_seq_properties;

verus! {

broadcast use group_seq_properties;

/// Default number of quads per encoding batch.
pub const DEFAULT_BULK_LOAD_BATCH_SIZE: usize = 1_000_000;

/// `a + b` clamped to the range of the shared progress counter.
pub open spec fn saturating_counter_add(a: u64, b: int) -> u64 {
    if a + b > u64::MAX {
        u64::MAX
    } else {
        (a + b) as u64
    }
}

/// `e` encodes some default-graph quad of the batch.
pub open spec fn batch_image_default(qs: Seq<Quad>, e: EncodedQuad) -> bool {
    exists|i: int|
        0 <= i < qs.len() && (#[trigger] qs[i]).graph_name is DefaultGraph && encodes_model_quad(
            qs[i],
            e,
        )
}

/// `e` encodes some named-graph quad of the batch.
pub open spec fn batch_image_named(qs: Seq<Quad>, e: EncodedQuad) -> bool {
    exists|i: int|
        0 <= i < qs.len() && !((#[trigger] qs[i]).graph_name is DefaultGraph)
            && encodes_model_quad(qs[i], e)
}

/// `g` encodes the graph name of some named-graph quad of the batch.
pub open spec fn batch_graph_image(qs: Seq<Quad>, g: EncodedTerm) -> bool {
    exists|i: int|
        0 <= i < qs.len() && !((#[trigger] qs[i]).graph_name is DefaultGraph)
            && encodes_model_term(qs[i].graph_name, g)
}

/// Encoding the batch `qs` against a dictionary with contents `m` hits
/// a 128-bit hash collision between distinct strings: a string of some
/// quad against a differently valued entry, or two distinct strings of
/// the batch against each other. This is the one condition under which
/// a bulk load cannot complete.
pub open spec fn batch_collision(m: Map<u128, Seq<char>>, qs: Seq<Quad>) -> bool {
    (exists|i: int, s: Seq<char>|
        0 <= i < qs.len() && #[trigger] quad_interns(qs[i], s) && str_collides(m, s)) || (exists|
        i: int,
        j: int,
        s1: Seq<char>,
        s2: Seq<char>,
    |
        0 <= i < qs.len() && 0 <= j < qs.len() && #[trigger] quad_interns(qs[i], s1)
            && #[trigger] quad_interns(qs[j], s2) && s1 != s2 && spec_str_hash(s1)
            == spec_str_hash(s2))
}

/// Folds the interning of one more quad of the batch into the
/// accumulated picture of the dictionary: it still extends the original
/// one, and every addition still maps a batch string's own hash to that
/// string.
proof fn lemma_batch_compose_one(
    m0: Map<u128, Seq<char>>,
    ma: Map<u128, Seq<char>>,
    mb: Map<u128, Seq<char>>,
    qs: Seq<Quad>,
    i: int,
)
    requires
        0 <= i < qs.len(),
        forall|h: u128| #[trigger] m0.contains_key(h) ==> ma.contains_key(h) && ma[h] == m0[h],
        forall|h: u128|
            #[trigger] ma.contains_key(h) ==> m0.contains_key(h) || (exists|j: int, s: Seq<char>|
                0 <= j < i && #[trigger] quad_interns(qs[j], s) && spec_str_hash(s) == h && ma[h]
                    == s),
        forall|j: int, s: Seq<char>|
            0 <= j < i && #[trigger] quad_interns(qs[j], s) ==> ma.contains_key(spec_str_hash(s))
                && ma[spec_str_hash(s)] == s,
        forall|h: u128| #[trigger] ma.contains_key(h) ==> mb.contains_key(h) && mb[h] == ma[h],
        forall|h: u128|
            #[trigger] mb.contains_key(h) ==> ma.contains_key(h) || (exists|s: Seq<char>|
                #[trigger] quad_interns(qs[i], s) && spec_str_hash(s) == h && mb[h] == s),
        forall|s: Seq<char>|
            #[trigger] quad_interns(qs[i], s) ==> mb.contains_key(spec_str_hash(s)) && mb[spec_str_hash(
                s,
            )] == s,
    ensures
        forall|h: u128| #[trigger] m0.contains_key(h) ==> mb.contains_key(h) && mb[h] == m0[h],
        forall|h: u128|
            #[trigger] mb.contains_key(h) ==> m0.contains_key(h) || (exists|j: int, s: Seq<char>|
                0 <= j < i + 1 && #[trigger] quad_interns(qs[j], s) && spec_str_hash(s) == h
                    && mb[h] == s),
        forall|j: int, s: Seq<char>|
            0 <= j < i + 1 && #[trigger] quad_interns(qs[j], s) ==> mb.contains_key(spec_str_hash(
                s,
            )) && mb[spec_str_hash(s)] == s,
{
    assert forall|h: u128| #[trigger] mb.contains_key(h) implies m0.contains_key(h) || (exists|
        j: int,
        s: Seq<char>,
    |
        0 <= j < i + 1 && #[trigger] quad_interns(qs[j], s) && spec_str_hash(s) == h && mb[h]
            == s) by {
        if !m0.contains_key(h) {
            if ma.contains_key(h) {
                let (j, s) = choose|j: int, s: Seq<char>|
                    0 <= j < i && #[trigger] quad_interns(qs[j], s) && spec_str_hash(s) == h
                        && ma[h] == s;
                assert(mb[h] == ma[h]);
                assert(0 <= j < i + 1 && quad_interns(qs[j], s) && spec_str_hash(s) == h && mb[h]
                    == s);
            } else {
                let s = choose|s: Seq<char>|
                    #[trigger] quad_interns(qs[i], s) && spec_str_hash(s) == h && mb[h] == s;
                assert(0 <= i < i + 1 && quad_interns(qs[i], s) && spec_str_hash(s) == h && mb[h]
                    == s);
            }
        }
    }
    assert forall|j: int, s: Seq<char>|
        0 <= j < i + 1 && #[trigger] quad_interns(qs[j], s) implies mb.contains_key(spec_str_hash(
        s,
    )) && mb[spec_str_hash(s)] == s by {
        if j < i {
            assert(ma.contains_key(spec_str_hash(s)) && ma[spec_str_hash(s)] == s);
        }
    }
}

/// Lifts a collision met while interning one quad of the batch, after
/// the earlier quads went in cleanly, to a collision of the whole batch
/// against the original dictionary.
proof fn lemma_batch_collision_lifts_one(
    m0: Map<u128, Seq<char>>,
    ma: Map<u128, Seq<char>>,
    qs: Seq<Quad>,
    i: int,
)
    requires
        0 <= i < qs.len(),
        quad_collision(ma, qs[i]),
        forall|h: u128| #[trigger] m0.contains_key(h) ==> ma.contains_key(h) && ma[h] == m0[h],
        forall|h: u128|
            #[trigger] ma.contains_key(h) ==> m0.contains_key(h) || (exists|j: int, s: Seq<char>|
                0 <= j < i && #[trigger] quad_interns(qs[j], s) && spec_str_hash(s) == h && ma[h]
                    == s),
    ensures
        batch_collision(m0, qs),
{
    if exists|s: Seq<char>| #[trigger] quad_interns(qs[i], s) && str_collides(ma, s) {
        let s = choose|s: Seq<char>| #[trigger] quad_interns(qs[i], s) && str_collides(ma, s);
        let h = spec_str_hash(s);
        if m0.contains_key(h) {
            assert(ma[h] == m0[h]);
            assert(str_collides(m0, s));
            assert(0 <= i < qs.len() && quad_interns(qs[i], s) && str_collides(m0, s));
        } else {
            let (j, s2) = choose|j: int, s2: Seq<char>|
                0 <= j < i && #[trigger] quad_interns(qs[j], s2) && spec_str_hash(s2) == h
                    && ma[h] == s2;
            assert(s2 != s && spec_str_hash(s2) == spec_str_hash(s));
            assert(quad_interns(qs[j], s2) && quad_interns(qs[i], s));
        }
    } else {
        let (s1, s2) = choose|s1: Seq<char>, s2: Seq<char>|
            #[trigger] quad_interns(qs[i], s1) && #[trigger] quad_interns(qs[i], s2) && s1 != s2
                && spec_str_hash(s1) == spec_str_hash(s2);
        assert(0 <= i < qs.len() && quad_interns(qs[i], s1) && quad_interns(qs[i], s2));
    }
}

/// A dictionary that maps every interned string of the batch to itself
/// while keeping the original entries unchanged rules a batch collision
/// out.
proof fn lemma_batch_no_collision(m0: Map<u128, Seq<char>>, mn: Map<u128, Seq<char>>, qs: Seq<Quad>)
    requires
        forall|h: u128| #[trigger] m0.contains_key(h) ==> mn.contains_key(h) && mn[h] == m0[h],
        forall|j: int, s: Seq<char>|
            0 <= j < qs.len() && #[trigger] quad_interns(qs[j], s) ==> mn.contains_key(
                spec_str_hash(s),
            ) && mn[spec_str_hash(s)] == s,
    ensures
        !batch_collision(m0, qs),
{
    assert forall|i: int, s: Seq<char>|
        0 <= i < qs.len() && #[trigger] quad_interns(qs[i], s) implies !str_collides(m0, s) by {
        if m0.contains_key(spec_str_hash(s)) {
            assert(mn[spec_str_hash(s)] == m0[spec_str_hash(s)]);
            assert(mn[spec_str_hash(s)] == s);
        }
    }
    assert forall|i: int, j: int, s1: Seq<char>, s2: Seq<char>|
        0 <= i < qs.len() && 0 <= j < qs.len() && #[trigger] quad_interns(qs[i], s1)
            && #[trigger] quad_interns(qs[j], s2) && spec_str_hash(s1) == spec_str_hash(s2) implies
        s1 == s2 by {
        assert(mn[spec_str_hash(s1)] == s1);
        assert(mn[spec_str_hash(s2)] == s2);
    }
}

/// Folds a whole cleanly loaded slice of the stream into the
/// accumulated picture of the store dictionary.
proof fn lemma_batch_compose_chunk(
    m0: Map<u128, Seq<char>>,
    ma: Map<u128, Seq<char>>,
    mb: Map<u128, Seq<char>>,
    qs: Seq<Quad>,
    i: int,
    end: int,
)
    requires
        0 <= i <= end <= qs.len(),
        forall|h: u128| #[trigger] m0.contains_key(h) ==> ma.contains_key(h) && ma[h] == m0[h],
        forall|h: u128|
            #[trigger] ma.contains_key(h) ==> m0.contains_key(h) || (exists|j: int, s: Seq<char>|
                0 <= j < i && #[trigger] quad_interns(qs[j], s) && spec_str_hash(s) == h && ma[h]
                    == s),
        forall|j: int, s: Seq<char>|
            0 <= j < i && #[trigger] quad_interns(qs[j], s) ==> ma.contains_key(spec_str_hash(s))
                && ma[spec_str_hash(s)] == s,
        forall|h: u128| #[trigger] ma.contains_key(h) ==> mb.contains_key(h) && mb[h] == ma[h],
        forall|h: u128|
            #[trigger] mb.contains_key(h) ==> ma.contains_key(h) || (exists|k: int, s: Seq<char>|
                0 <= k < end - i && #[trigger] quad_interns(qs.subrange(i, end)[k], s)
                    && spec_str_hash(s) == h && mb[h] == s),
        forall|k: int, s: Seq<char>|
            0 <= k < end - i && #[trigger] quad_interns(qs.subrange(i, end)[k], s)
                ==> mb.contains_key(spec_str_hash(s)) && mb[spec_str_hash(s)] == s,
    ensures
        forall|h: u128| #[trigger] m0.contains_key(h) ==> mb.contains_key(h) && mb[h] == m0[h],
        forall|h: u128|
            #[trigger] mb.contains_key(h) ==> m0.contains_key(h) || (exists|j: int, s: Seq<char>|
                0 <= j < end && #[trigger] quad_interns(qs[j], s) && spec_str_hash(s) == h
                    && mb[h] == s),
        forall|j: int, s: Seq<char>|
            0 <= j < end && #[trigger] quad_interns(qs[j], s) ==> mb.contains_key(spec_str_hash(
                s,
            )) && mb[spec_str_hash(s)] == s,
{
    let chunk = qs.subrange(i, end);
    assert forall|h: u128| #[trigger] mb.contains_key(h) implies m0.contains_key(h) || (exists|
        j: int,
        s: Seq<char>,
    |
        0 <= j < end && #[trigger] quad_interns(qs[j], s) && spec_str_hash(s) == h && mb[h]
            == s) by {
        if !m0.contains_key(h) {
            if ma.contains_key(h) {
                let (j, s) = choose|j: int, s: Seq<char>|
                    0 <= j < i && #[trigger] quad_interns(qs[j], s) && spec_str_hash(s) == h
                        && ma[h] == s;
                assert(mb[h] == ma[h]);
                assert(0 <= j < end && quad_interns(qs[j], s) && spec_str_hash(s) == h && mb[h]
                    == s);
            } else {
                let (k, s) = choose|k: int, s: Seq<char>|
                    0 <= k < end - i && #[trigger] quad_interns(chunk[k], s) && spec_str_hash(s)
                        == h && mb[h] == s;
                assert(chunk[k] == qs[i + k]);
                assert(0 <= i + k < end && quad_interns(qs[i + k], s) && spec_str_hash(s) == h
                    && mb[h] == s);
            }
        }
    }
    assert forall|j: int, s: Seq<char>|
        0 <= j < end && #[trigger] quad_interns(qs[j], s) implies mb.contains_key(spec_str_hash(
        s,
    )) && mb[spec_str_hash(s)] == s by {
        if j < i {
            assert(ma.contains_key(spec_str_hash(s)) && ma[spec_str_hash(s)] == s);
        } else {
            assert(chunk[j - i] == qs[j]);
            assert(quad_interns(chunk[j - i], s));
        }
    }
}

/// Lifts a collision met while loading one slice of the stream, after
/// the earlier slices went in cleanly, to a collision of the whole
/// stream against the original dictionary.
proof fn lemma_chunk_collision_lifts(
    m0: Map<u128, Seq<char>>,
    ma: Map<u128, Seq<char>>,
    qs: Seq<Quad>,
    i: int,
    end: int,
)
    requires
        0 <= i <= end <= qs.len(),
        batch_collision(ma, qs.subrange(i, end)),
        forall|h: u128| #[trigger] m0.contains_key(h) ==> ma.contains_key(h) && ma[h] == m0[h],
        forall|h: u128|
            #[trigger] ma.contains_key(h) ==> m0.contains_key(h) || (exists|j: int, s: Seq<char>|
                0 <= j < i && #[trigger] quad_interns(qs[j], s) && spec_str_hash(s) == h && ma[h]
                    == s),
    ensures
        batch_collision(m0, qs),
{
    let chunk = qs.subrange(i, end);
    if exists|k: int, s: Seq<char>|
        0 <= k < chunk.len() && #[trigger] quad_interns(chunk[k], s) && str_collides(ma, s) {
        let (k, s) = choose|k: int, s: Seq<char>|
            0 <= k < chunk.len() && #[trigger] quad_interns(chunk[k], s) && str_collides(ma, s);
        let h = spec_str_hash(s);
        assert(chunk[k] == qs[i + k]);
        if m0.contains_key(h) {
            assert(ma[h] == m0[h]);
            assert(str_collides(m0, s));
            assert(0 <= i + k < qs.len() && quad_interns(qs[i + k], s) && str_collides(m0, s));
        } else {
            let (j, s2) = choose|j: int, s2: Seq<char>|
                0 <= j < i && #[trigger] quad_interns(qs[j], s2) && spec_str_hash(s2) == h
                    && ma[h] == s2;
            assert(s2 != s && spec_str_hash(s2) == spec_str_hash(s));
            assert(quad_interns(qs[j], s2) && quad_interns(qs[i + k], s));
        }
    } else {
        let (k1, k2, s1, s2) = choose|k1: int, k2: int, s1: Seq<char>, s2: Seq<char>|
            0 <= k1 < chunk.len() && 0 <= k2 < chunk.len() && #[trigger] quad_interns(
                chunk[k1],
                s1,
            ) && #[trigger] quad_interns(chunk[k2], s2) && s1 != s2 && spec_str_hash(s1)
                == spec_str_hash(s2);
        assert(chunk[k1] == qs[i + k1]);
        assert(chunk[k2] == qs[i + k2]);
        assert(quad_interns(qs[i + k1], s1) && quad_interns(qs[i + k2], s2));
    }
}

/// Two dictionaries disagree on a key both hold: merging them would be
/// a hash collision between distinct strings.
pub open spec fn dicts_conflict(a: Map<u128, Seq<char>>, b: Map<u128, Seq<char>>) -> bool {
    exists|h: u128| #[trigger] a.contains_key(h) && b.contains_key(h) && a[h] != b[h]
}

/// Merges one batch dictionary into another; existing entries are
/// untouched. The merge fails exactly when the two dictionaries disagree
/// on a shared key, and even then adds to `dst` only entries of `src`.
#[verifier::rlimit(100)]
fn merge_dictionary(dst: &mut Dictionary, src: &Dictionary) -> (r: Result<(), StorageError>)
    requires
        old(dst).wf(),
        src.wf(),
    ensures
        final(dst).wf(),
        forall|h: u128|
            #[trigger] old(dst)@.contains_key(h) ==> final(dst)@.contains_key(h)
                && final(dst)@[h] == old(dst)@[h],
        forall|h: u128|
            #[trigger] final(dst)@.contains_key(h) ==> old(dst)@.contains_key(h) || (
            src@.contains_key(h) && final(dst)@[h] == src@[h]),
        r is Err <==> dicts_conflict(src@, old(dst)@),
        r is Ok ==> forall|h: u128|
            #[trigger] src@.contains_key(h) ==> final(dst)@.contains_key(h) && final(dst)@[h]
                == src@[h],
{
    let n = src.entries.len();
    let mut k: usize = 0;
    proof {
        assert forall|j: int| 0 <= j < src.entries@.len() implies src@.contains_key(
            (#[trigger] src.entries@[j]).0.hash,
        ) && src@[src.entries@[j].0.hash] == src.entries@[j].1@ by {
            assert forall|j2: int|
                j < j2 < src.entries@.len() implies (#[trigger] src.entries@[j2]).0.hash
                != src.entries@[j].0.hash by {}
            lemma_dict_map_value(src.entries@, j);
        }
    }
    while k < n
        invariant
            dst.wf(),
            src.wf(),
            n == src.entries@.len(),
            k <= n,
            forall|j: int|
                0 <= j < src.entries@.len() ==> src@.contains_key(
                    (#[trigger] src.entries@[j]).0.hash,
                ) && src@[src.entries@[j].0.hash] == src.entries@[j].1@,
            forall|h: u128|
                #[trigger] old(dst)@.contains_key(h) ==> dst@.contains_key(h) && dst@[h] == old(dst)@[h],
            forall|h: u128|
                #[trigger] dst@.contains_key(h) ==> old(dst)@.contains_key(h) || (
                src@.contains_key(h) && dst@[h] == src@[h]),
            forall|j: int|
                0 <= j < k ==> dst@.contains_key((#[trigger] src.entries@[j]).0.hash)
                    && dst@[src.entries@[j].0.hash] == src.entries@[j].1@,
            forall|j: int|
                0 <= j < k && old(dst)@.contains_key((#[trigger] src.entries@[j]).0.hash) ==> old(dst)@[src.entries@[j].0.hash] == src.entries@[j].1@,
        decreases n - k,
    {
        let key = src.entries[k].0;
        let value = src.entries[k].1.clone();
        let ghost prev = dst@;
        proof {
            assert(src@.contains_key(key.hash) && src@[key.hash] == value@);
        }
        match dst.put(key, value) {
            Ok(_) => {},
            Err(e) => {
                proof {
                    assert(prev.contains_key(key.hash) && prev[key.hash] != value@);
                    assert(old(dst)@.contains_key(key.hash));
                    assert(old(dst)@[key.hash] != src@[key.hash]);
                    assert(dicts_conflict(src@, old(dst)@));
                }
                return Err(e);
            },
        }
        proof {
            assert(dst@ == prev.insert(key.hash, value@));
            assert forall|h: u128| old(dst)@.contains_key(h) implies dst@.contains_key(h)
                && dst@[h] == old(dst)@[h] by {
                assert(prev.contains_key(h));
                assert(prev[h] == old(dst)@[h]);
                if h == key.hash {
                    assert(prev[key.hash] == value@);
                    assert(dst@[h] == value@);
                } else {
                    assert(dst@[h] == prev[h]);
                }
            }
            assert forall|j: int| 0 <= j < k + 1 implies dst@.contains_key(
                (#[trigger] src.entries@[j]).0.hash,
            ) && dst@[src.entries@[j].0.hash] == src.entries@[j].1@ by {
                if j < k {
                    if src.entries@[j].0.hash == key.hash {
                        assert(false);
                    } else {
                        assert(dst@[src.entries@[j].0.hash] == prev[src.entries@[j].0.hash]);
                    }
                }
            }
        }
        k = k + 1;
    }
    proof {
        assert forall|h: u128| #[trigger] src@.contains_key(h) implies dst@.contains_key(h)
            && dst@[h] == src@[h] by {
            lemma_dict_map_domain(src.entries@, h);
            let j = choose|j: int|
                0 <= j < src.entries@.len() && (#[trigger] src.entries@[j]).0.hash == h;
            assert(src@[h] == src.entries@[j].1@);
            assert(dst@[src.entries@[j].0.hash] == src.entries@[j].1@);
        }
        assert(!dicts_conflict(src@, old(dst)@)) by {
            assert forall|h: u128|
                #[trigger] src@.contains_key(h) && old(dst)@.contains_key(h) implies src@[h]
                == old(dst)@[h] by {
                lemma_dict_map_domain(src.entries@, h);
                let j = choose|j: int|
                    0 <= j < src.entries@.len() && (#[trigger] src.entries@[j]).0.hash == h;
                assert(src@[h] == src.entries@[j].1@);
                assert(old(dst)@[h] == src.entries@[j].1@);
            }
        }
    }
    Ok(())
}

impl Storage {
    /// Registers every name of the batch's graph set.
    #[verifier::rlimit(100)]
    fn register_graphs(&mut self, graph_names: &Vec<EncodedTerm>)
        requires
            old(self).wf(),
            forall|g: EncodedTerm|
                #[trigger] graph_names@.contains(g) ==> g.wf() && g.spec_is_named_or_blank()
                    && g.hash_refs() <= old(self).id2str@.dom(),
        ensures
            final(self).wf(),
            final(self).id2str == old(self).id2str,
            final(self).triples() == old(self).triples(),
            final(self).named_quads() == old(self).named_quads(),
            forall|g: EncodedTerm|
                #[trigger] final(self).graph_names().contains(g) <==> old(self).graph_names().contains(g) || graph_names@.contains(g),
    {
        let n = graph_names.len();
        let mut i: usize = 0;
        while i < n
            invariant
                self.wf(),
                n == graph_names@.len(),
                i <= n,
                self.id2str == old(self).id2str,
                self.dspo@ == old(self).dspo@,
                self.dpos@ == old(self).dpos@,
                self.dosp@ == old(self).dosp@,
                self.spog@ == old(self).spog@,
                self.posg@ == old(self).posg@,
                self.ospg@ == old(self).ospg@,
                self.gspo@ == old(self).gspo@,
                self.gpos@ == old(self).gpos@,
                self.gosp@ == old(self).gosp@,
                forall|g: EncodedTerm|
                    #[trigger] graph_names@.contains(g) ==> g.wf() && g.spec_is_named_or_blank()
                        && g.hash_refs() <= old(self).id2str@.dom(),
                forall|g: EncodedTerm|
                    #[trigger] self.graphs@.contains(g) <==> old(self).graphs@.contains(g)
                        || graph_names@.take(i as int).contains(g),
            decreases n - i,
        {
            let g = graph_names[i];
            proof {
                assert(graph_names@.contains(graph_names@[i as int]));
            }
            if !crate::storage::contains_term(&self.graphs, &g) {
                let ghost before = self.graphs@;
                self.graphs.push(g);
                proof {
                    crate::storage::lemma_push_no_dup(before, g);
                }
            }
            proof {
                assert forall|g2: EncodedTerm|
                    #[trigger] self.graphs@.contains(g2) <==> old(self).graphs@.contains(g2)
                        || graph_names@.take(i + 1).contains(g2) by {
                    assert(graph_names@.take(i + 1).drop_last() =~= graph_names@.take(i as int));
                    assert(graph_names@.take(i + 1).last() == graph_names@[i as int]);
                    if graph_names@.take(i + 1).contains(g2) {
                        let j = choose|j: int|
                            0 <= j < i + 1 && #[trigger] graph_names@.take(i + 1)[j] == g2;
                        if j < i {
                            assert(graph_names@.take(i as int)[j] == g2);
                        }
                    }
                    if graph_names@.take(i as int).contains(g2) {
                        let j = choose|j: int|
                            0 <= j < i && #[trigger] graph_names@.take(i as int)[j] == g2;
                        assert(graph_names@.take(i + 1)[j] == g2);
                    }
                    if g2 == graph_names@[i as int] {
                        assert(graph_names@.take(i + 1)[i as int] == g2);
                    }
                }
            }
            i = i + 1;
        }
        proof {
            assert(graph_names@.take(n as int) =~= graph_names@);
        }
    }

    /// Unions a deduplicated default-graph batch into the three triple
    /// indexes.
    #[verifier::rlimit(100)]
    fn union_default(&mut self, triples: &Vec<EncodedQuad>)
        requires
            old(self).wf(),
            forall|q: EncodedQuad|
                #[trigger] triples@.contains(q) ==> q.wf() && q.graph_name is DefaultGraph
                    && q.hash_refs() <= old(self).id2str@.dom(),
        ensures
            final(self).wf(),
            final(self).id2str == old(self).id2str,
            final(self).named_quads() == old(self).named_quads(),
            final(self).graph_names() == old(self).graph_names(),
            forall|q: EncodedQuad|
                #[trigger] final(self).triples().contains(q) <==> old(self).triples().contains(q)
                    || triples@.contains(q),
    {
        let n = triples.len();
        let mut i: usize = 0;
        while i < n
            invariant
                self.wf(),
                n == triples@.len(),
                i <= n,
                self.id2str == old(self).id2str,
                self.spog@ == old(self).spog@,
                self.posg@ == old(self).posg@,
                self.ospg@ == old(self).ospg@,
                self.gspo@ == old(self).gspo@,
                self.gpos@ == old(self).gpos@,
                self.gosp@ == old(self).gosp@,
                self.graphs@ == old(self).graphs@,
                forall|q: EncodedQuad|
                    #[trigger] triples@.contains(q) ==> q.wf() && q.graph_name is DefaultGraph
                        && q.hash_refs() <= old(self).id2str@.dom(),
                forall|q: EncodedQuad|
                    #[trigger] self.dspo@.contains(q) <==> old(self).dspo@.contains(q)
                        || triples@.take(i as int).contains(q),
            decreases n - i,
        {
            let q = triples[i];
            proof {
                assert(triples@.contains(triples@[i as int]));
            }
            if !crate::storage::contains_quad(&self.dspo, &q) {
                let ghost before = self.dspo@;
                self.dspo.push(q);
                self.dpos.push(q);
                self.dosp.push(q);
                proof {
                    crate::storage::lemma_push_no_dup(before, q);
                }
            }
            proof {
                assert forall|q2: EncodedQuad|
                    #[trigger] self.dspo@.contains(q2) <==> old(self).dspo@.contains(q2)
                        || triples@.take(i + 1).contains(q2) by {
                    assert(triples@.take(i + 1).drop_last() =~= triples@.take(i as int));
                    assert(triples@.take(i + 1).last() == triples@[i as int]);
                    if triples@.take(i + 1).contains(q2) {
                        let j = choose|j: int|
                            0 <= j < i + 1 && #[trigger] triples@.take(i + 1)[j] == q2;
                        if j < i {
                            assert(triples@.take(i as int)[j] == q2);
                        }
                    }
                    if triples@.take(i as int).contains(q2) {
                        let j = choose|j: int|
                            0 <= j < i && #[trigger] triples@.take(i as int)[j] == q2;
                        assert(triples@.take(i + 1)[j] == q2);
                    }
                    if q2 == triples@[i as int] {
                        assert(triples@.take(i + 1)[i as int] == q2);
                    }
                }
            }
            i = i + 1;
        }
        proof {
            assert(triples@.take(n as int) =~= triples@);
        }
    }

    /// Unions a deduplicated named-graph batch into the six quad
    /// indexes; every graph name is already registered.
    #[verifier::rlimit(100)]
    fn union_named(&mut self, named: &Vec<EncodedQuad>)
        requires
            old(self).wf(),
            forall|q: EncodedQuad|
                #[trigger] named@.contains(q) ==> q.wf() && !(q.graph_name is DefaultGraph)
                    && q.hash_refs() <= old(self).id2str@.dom() && old(self).graphs@.contains(
                    q.graph_name,
                ),
        ensures
            final(self).wf(),
            final(self).id2str == old(self).id2str,
            final(self).triples() == old(self).triples(),
            final(self).graph_names() == old(self).graph_names(),
            forall|q: EncodedQuad|
                #[trigger] final(self).named_quads().contains(q) <==> old(self).named_quads().contains(q) || named@.contains(q),
    {
        let n = named.len();
        let mut i: usize = 0;
        while i < n
            invariant
                self.wf(),
                n == named@.len(),
                i <= n,
                self.id2str == old(self).id2str,
                self.dspo@ == old(self).dspo@,
                self.dpos@ == old(self).dpos@,
                self.dosp@ == old(self).dosp@,
                self.graphs@ == old(self).graphs@,
                forall|q: EncodedQuad|
                    #[trigger] named@.contains(q) ==> q.wf() && !(q.graph_name is DefaultGraph)
                        && q.hash_refs() <= old(self).id2str@.dom() && old(self).graphs@.contains(
                        q.graph_name,
                    ),
                forall|q: EncodedQuad|
                    #[trigger] self.spog@.contains(q) <==> old(self).spog@.contains(q)
                        || named@.take(i as int).contains(q),
            decreases n - i,
        {
            let q = named[i];
            proof {
                assert(named@.contains(named@[i as int]));
            }
            if !crate::storage::contains_quad(&self.spog, &q) {
                let ghost before = self.spog@;
                self.spog.push(q);
                self.posg.push(q);
                self.ospg.push(q);
                self.gspo.push(q);
                self.gpos.push(q);
                self.gosp.push(q);
                proof {
                    crate::storage::lemma_push_no_dup(before, q);
                }
            }
            proof {
                assert forall|q2: EncodedQuad|
                    #[trigger] self.spog@.contains(q2) <==> old(self).spog@.contains(q2)
                        || named@.take(i + 1).contains(q2) by {
                    assert(named@.take(i + 1).drop_last() =~= named@.take(i as int));
                    assert(named@.take(i + 1).last() == named@[i as int]);
                    if named@.take(i + 1).contains(q2) {
                        let j = choose|j: int|
                            0 <= j < i + 1 && #[trigger] named@.take(i + 1)[j] == q2;
                        if j < i {
                            assert(named@.take(i as int)[j] == q2);
                        }
                    }
                    if named@.take(i as int).contains(q2) {
                        let j = choose|j: int|
                            0 <= j < i && #[trigger] named@.take(i as int)[j] == q2;
                        assert(named@.take(i + 1)[j] == q2);
                    }
                    if q2 == named@[i as int] {
                        assert(named@.take(i + 1)[i as int] == q2);
                    }
                }
            }
            i = i + 1;
        }
        proof {
            assert(named@.take(n as int) =~= named@);
        }
    }

    /// Takes one encoded batch in: merges the batch dictionary, then
    /// registers graph names, then unions each quad set into every
    /// affected index, resolving cross-batch duplicates to a single
    /// entry whatever the arrival order. It fails exactly when the batch
    /// dictionary disagrees with the store dictionary on a shared key,
    /// and even then leaves every index untouched and adds at most
    /// dictionary entries of the batch.
    #[verifier::rlimit(100)]
    pub fn ingest_encoded(
        &mut self,
        triples: &Vec<EncodedQuad>,
        named: &Vec<EncodedQuad>,
        graph_names: &Vec<EncodedTerm>,
        strings: &Dictionary,
    ) -> (r: Result<(), StorageError>)
        requires
            old(self).wf(),
            strings.wf(),
            forall|q: EncodedQuad|
                #[trigger] triples@.contains(q) ==> q.wf() && q.graph_name is DefaultGraph
                    && q.hash_refs() <= strings@.dom(),
            forall|q: EncodedQuad|
                #[trigger] named@.contains(q) ==> q.wf() && !(q.graph_name is DefaultGraph)
                    && q.hash_refs() <= strings@.dom() && graph_names@.contains(q.graph_name),
            forall|g: EncodedTerm|
                #[trigger] graph_names@.contains(g) ==> g.wf() && g.spec_is_named_or_blank()
                    && g.hash_refs() <= strings@.dom(),
        ensures
            final(self).wf(),
            forall|h: u128|
                #[trigger] old(self).id2str@.contains_key(h) ==> final(self).id2str@.contains_key(
                    h,
                ) && final(self).id2str@[h] == old(self).id2str@[h],
            forall|h: u128|
                #[trigger] final(self).id2str@.contains_key(h) ==> old(self).id2str@.contains_key(
                    h,
                ) || (strings@.contains_key(h) && final(self).id2str@[h] == strings@[h]),
            r is Err <==> dicts_conflict(strings@, old(self).id2str@),
            r is Ok ==> forall|h: u128|
                #[trigger] strings@.contains_key(h) ==> final(self).id2str@.contains_key(h)
                    && final(self).id2str@[h] == strings@[h],
            r is Err ==> final(self).triples() == old(self).triples()
                && final(self).named_quads() == old(self).named_quads()
                && final(self).graph_names() == old(self).graph_names(),
            r is Ok ==> (forall|q: EncodedQuad|
                #[trigger] final(self).triples().contains(q) <==> old(self).triples().contains(q)
                    || triples@.contains(q)) && (forall|q: EncodedQuad|
                #[trigger] final(self).named_quads().contains(q) <==> old(self).named_quads().contains(q)
                    || named@.contains(q)) && (forall|g: EncodedTerm|
                #[trigger] final(self).graph_names().contains(g) <==> old(self).graph_names().contains(g)
                    || graph_names@.contains(g)),
    {
        match merge_dictionary(&mut self.id2str, strings) {
            Ok(_) => {},
            Err(e) => {
                return Err(e);
            },
        }
        self.register_graphs(graph_names);
        self.union_default(triples);
        self.union_named(named);
        Ok(())
    }
}

/// One worker's in-memory batch: a private dictionary, the deduplicated
/// default-graph and named-graph quad sets, and the graph-name set, each
/// destined for its own column family.
pub struct FileBulkLoader {
    pub id2str: Dictionary,
    pub quads: Vec<EncodedQuad>,
    pub triples: Vec<EncodedQuad>,
    pub graphs: Vec<EncodedTerm>,
}

impl FileBulkLoader {
    /// The batch sets are deduplicated, mutually consistent, and every
    /// hash reference resolves in the batch dictionary.
    pub open spec fn wf(&self) -> bool {
        &&& self.id2str.wf()
        &&& self.triples@.no_duplicates()
        &&& self.quads@.no_duplicates()
        &&& self.graphs@.no_duplicates()
        &&& forall|q: EncodedQuad|
            #[trigger] self.triples@.contains(q) ==> q.wf() && q.graph_name is DefaultGraph
                && q.hash_refs() <= self.id2str@.dom()
        &&& forall|q: EncodedQuad|
            #[trigger] self.quads@.contains(q) ==> q.wf() && !(q.graph_name is DefaultGraph)
                && q.hash_refs() <= self.id2str@.dom() && self.graphs@.contains(q.graph_name)
        &&& forall|g: EncodedTerm|
            #[trigger] self.graphs@.contains(g) ==> g.wf() && g.spec_is_named_or_blank()
                && g.hash_refs() <= self.id2str@.dom()
    }

    /// A fresh worker; the batch size is a capacity hint only.
    pub fn new(batch_size: usize) -> (r: FileBulkLoader)
        ensures
            r.wf(),
            r.triples@ == Seq::<EncodedQuad>::empty(),
            r.quads@ == Seq::<EncodedQuad>::empty(),
            r.graphs@ == Seq::<EncodedTerm>::empty(),
            r.id2str@ == Map::<u128, Seq<char>>::empty(),
    {
        let _ = batch_size;
        FileBulkLoader {
            id2str: Dictionary::new(),
            quads: Vec::new(),
            triples: Vec::new(),
            graphs: Vec::new(),
        }
    }

    /// Encodes a batch, deduplicating within it and interning every
    /// string; a graph name arriving as the default-graph marker in the
    /// named path is impossible for well-formed input. The batch fails
    /// exactly on a hash collision between distinct strings, and even
    /// then the batch dictionary maps each entry to a batch string under
    /// its own hash.
    #[verifier::rlimit(100)]
    pub fn encode(&mut self, quads: &Vec<Quad>) -> (r: Result<(), StorageError>)
        requires
            old(self).wf(),
            forall|i: int| 0 <= i < quads@.len() ==> (#[trigger] quads@[i]).wf(),
        ensures
            final(self).wf(),
            forall|h: u128|
                #[trigger] old(self).id2str@.contains_key(h) ==> final(self).id2str@.contains_key(
                    h,
                ) && final(self).id2str@[h] == old(self).id2str@[h],
            forall|h: u128|
                #[trigger] final(self).id2str@.contains_key(h) ==> old(self).id2str@.contains_key(
                    h,
                ) || (exists|i: int, s: Seq<char>|
                    0 <= i < quads@.len() && #[trigger] quad_interns(quads@[i], s)
                        && spec_str_hash(s) == h && final(self).id2str@[h] == s),
            r is Err <==> batch_collision(old(self).id2str@, quads@),
            r is Ok ==> forall|i: int, s: Seq<char>|
                0 <= i < quads@.len() && #[trigger] quad_interns(quads@[i], s) ==> final(self).id2str@.contains_key(spec_str_hash(s)) && final(self).id2str@[spec_str_hash(s)]
                    == s,
            r is Ok ==> (forall|e: EncodedQuad|
                #[trigger] final(self).triples@.contains(e) <==> old(self).triples@.contains(e)
                    || batch_image_default(quads@, e)) && (forall|e: EncodedQuad|
                #[trigger] final(self).quads@.contains(e) <==> old(self).quads@.contains(e)
                    || batch_image_named(quads@, e)) && (forall|g: EncodedTerm|
                #[trigger] final(self).graphs@.contains(g) <==> old(self).graphs@.contains(g)
                    || batch_graph_image(quads@, g)),
    {
        let n = quads.len();
        let mut i: usize = 0;
        while i < n
            invariant
                self.wf(),
                n == quads@.len(),
                i <= n,
                forall|j: int| 0 <= j < quads@.len() ==> (#[trigger] quads@[j]).wf(),
                forall|e: EncodedQuad|
                    #[trigger] self.triples@.contains(e) <==> old(self).triples@.contains(e)
                        || batch_image_default(quads@.take(i as int), e),
                forall|e: EncodedQuad|
                    #[trigger] self.quads@.contains(e) <==> old(self).quads@.contains(e)
                        || batch_image_named(quads@.take(i as int), e),
                forall|g: EncodedTerm|
                    #[trigger] self.graphs@.contains(g) <==> old(self).graphs@.contains(g)
                        || batch_graph_image(quads@.take(i as int), g),
                forall|h: u128|
                    #[trigger] old(self).id2str@.contains_key(h) ==> self.id2str@.contains_key(h)
                        && self.id2str@[h] == old(self).id2str@[h],
                forall|h: u128|
                    #[trigger] self.id2str@.contains_key(h) ==> old(self).id2str@.contains_key(h)
                        || (exists|j: int, s: Seq<char>|
                        0 <= j < i && #[trigger] quad_interns(quads@[j], s) && spec_str_hash(s)
                            == h && self.id2str@[h] == s),
                forall|j: int, s: Seq<char>|
                    0 <= j < i && #[trigger] quad_interns(quads@[j], s)
                        ==> self.id2str@.contains_key(spec_str_hash(s))
                        && self.id2str@[spec_str_hash(s)] == s,
            decreases n - i,
        {
            let ghost prev = *self;
            let e = match insert_quad_terms(&quads[i], &mut self.id2str) {
                Ok(e) => e,
                Err(err) => {
                    proof {
                        lemma_batch_collision_lifts_one(
                            old(self).id2str@,
                            prev.id2str@,
                            quads@,
                            i as int,
                        );
                        assert forall|h: u128| #[trigger] self.id2str@.contains_key(h) implies old(self).id2str@.contains_key(h) || (exists|j: int, s: Seq<char>|
                            0 <= j < quads@.len() && #[trigger] quad_interns(quads@[j], s)
                                && spec_str_hash(s) == h && self.id2str@[h] == s) by {
                            if !old(self).id2str@.contains_key(h) {
                                if prev.id2str@.contains_key(h) {
                                    let (j, s) = choose|j: int, s: Seq<char>|
                                        0 <= j < i && #[trigger] quad_interns(quads@[j], s)
                                            && spec_str_hash(s) == h && prev.id2str@[h] == s;
                                    assert(self.id2str@[h] == prev.id2str@[h]);
                                    assert(0 <= j < quads@.len() && quad_interns(quads@[j], s)
                                        && spec_str_hash(s) == h && self.id2str@[h] == s);
                                } else {
                                    let s = choose|s: Seq<char>|
                                        #[trigger] quad_interns(quads@[i as int], s)
                                            && spec_str_hash(s) == h && self.id2str@[h] == s;
                                    assert(0 <= i < quads@.len() && quad_interns(
                                        quads@[i as int],
                                        s,
                                    ) && spec_str_hash(s) == h && self.id2str@[h] == s);
                                }
                            }
                        }
                    }
                    return Err(err);
                },
            };
            proof {
                lemma_batch_compose_one(
                    old(self).id2str@,
                    prev.id2str@,
                    self.id2str@,
                    quads@,
                    i as int,
                );
            }
            proof {
                assert(quads@[i as int].wf());
                lemma_encodes_model_quad_wf(quads@[i as int], e);
            }
            if e.graph_name.is_default_graph() {
                if !crate::storage::contains_quad(&self.triples, &e) {
                    let ghost before = self.triples@;
                    self.triples.push(e);
                    proof {
                        crate::storage::lemma_push_no_dup(before, e);
                    }
                }
            } else {
                if !crate::storage::contains_quad(&self.quads, &e) {
                    let ghost before = self.quads@;
                    self.quads.push(e);
                    proof {
                        crate::storage::lemma_push_no_dup(before, e);
                    }
                    if !crate::storage::contains_term(&self.graphs, &e.graph_name) {
                        let ghost gbefore = self.graphs@;
                        self.graphs.push(e.graph_name);
                        proof {
                            crate::storage::lemma_push_no_dup(gbefore, e.graph_name);
                        }
                    }
                }
            }
            proof {
                let qs1 = quads@.take(i + 1);
                assert(qs1.drop_last() =~= quads@.take(i as int));
                assert(qs1.last() == quads@[i as int]);
                assert forall|e2: EncodedQuad|
                    #[trigger] self.triples@.contains(e2) <==> prev.triples@.contains(e2) || (
                    quads@[i as int].graph_name is DefaultGraph && encodes_model_quad(
                        quads@[i as int],
                        e2,
                    )) by {
                    if quads@[i as int].graph_name is DefaultGraph && encodes_model_quad(
                        quads@[i as int],
                        e2,
                    ) {
                        lemma_encodes_model_quad_functional(quads@[i as int], e2, e);
                    }
                }
                assert forall|e2: EncodedQuad|
                    #[trigger] self.quads@.contains(e2) <==> prev.quads@.contains(e2) || (!(
                    quads@[i as int].graph_name is DefaultGraph) && encodes_model_quad(
                        quads@[i as int],
                        e2,
                    )) by {
                    if !(quads@[i as int].graph_name is DefaultGraph) && encodes_model_quad(
                        quads@[i as int],
                        e2,
                    ) {
                        lemma_encodes_model_quad_functional(quads@[i as int], e2, e);
                    }
                }
                assert forall|g2: EncodedTerm|
                    #[trigger] self.graphs@.contains(g2) <==> prev.graphs@.contains(g2) || (!(
                    quads@[i as int].graph_name is DefaultGraph) && encodes_model_term(
                        quads@[i as int].graph_name,
                        g2,
                    )) by {
                    if !(quads@[i as int].graph_name is DefaultGraph) && encodes_model_term(
                        quads@[i as int].graph_name,
                        g2,
                    ) {
                        lemma_encodes_model_term_functional(
                            quads@[i as int].graph_name,
                            g2,
                            e.graph_name,
                        );
                        if prev.quads@.contains(e) {
                            assert(prev.graphs@.contains(e.graph_name));
                        }
                    }
                }
                assert forall|e2: EncodedQuad|
                    #[trigger] self.triples@.contains(e2) <==> old(self).triples@.contains(e2)
                        || batch_image_default(qs1, e2) by {
                    if batch_image_default(qs1, e2) {
                        let j = choose|j: int|
                            0 <= j < qs1.len() && (#[trigger] qs1[j]).graph_name is DefaultGraph
                                && encodes_model_quad(qs1[j], e2);
                        if j < i {
                            assert(quads@.take(i as int)[j] == qs1[j]);
                            assert(batch_image_default(quads@.take(i as int), e2));
                        }
                    }
                    if batch_image_default(quads@.take(i as int), e2) {
                        let j = choose|j: int|
                            0 <= j < i && (#[trigger] quads@.take(i as int)[j]).graph_name
                                is DefaultGraph && encodes_model_quad(
                                quads@.take(i as int)[j],
                                e2,
                            );
                        assert(qs1[j] == quads@.take(i as int)[j]);
                        assert(batch_image_default(qs1, e2));
                    }
                }
                assert forall|e2: EncodedQuad|
                    #[trigger] self.quads@.contains(e2) <==> old(self).quads@.contains(e2)
                        || batch_image_named(qs1, e2) by {
                    if batch_image_named(qs1, e2) {
                        let j = choose|j: int|
                            0 <= j < qs1.len() && !((#[trigger] qs1[j]).graph_name
                                is DefaultGraph) && encodes_model_quad(qs1[j], e2);
                        if j < i {
                            assert(quads@.take(i as int)[j] == qs1[j]);
                            assert(batch_image_named(quads@.take(i as int), e2));
                        }
                    }
                    if batch_image_named(quads@.take(i as int), e2) {
                        let j = choose|j: int|
                            0 <= j < i && !((#[trigger] quads@.take(i as int)[j]).graph_name
                                is DefaultGraph) && encodes_model_quad(
                                quads@.take(i as int)[j],
                                e2,
                            );
                        assert(qs1[j] == quads@.take(i as int)[j]);
                        assert(batch_image_named(qs1, e2));
                    }
                }
                assert forall|g2: EncodedTerm|
                    #[trigger] self.graphs@.contains(g2) <==> old(self).graphs@.contains(g2)
                        || batch_graph_image(qs1, g2) by {
                    if batch_graph_image(qs1, g2) {
                        let j = choose|j: int|
                            0 <= j < qs1.len() && !((#[trigger] qs1[j]).graph_name
                                is DefaultGraph) && encodes_model_term(qs1[j].graph_name, g2);
                        if j < i {
                            assert(quads@.take(i as int)[j] == qs1[j]);
                            assert(batch_graph_image(quads@.take(i as int), g2));
                        }
                    }
                    if batch_graph_image(quads@.take(i as int), g2) {
                        let j = choose|j: int|
                            0 <= j < i && !((#[trigger] quads@.take(i as int)[j]).graph_name
                                is DefaultGraph) && encodes_model_term(
                                quads@.take(i as int)[j].graph_name,
                                g2,
                            );
                        assert(qs1[j] == quads@.take(i as int)[j]);
                        assert(batch_graph_image(qs1, g2));
                    }
                }
            }
            i = i + 1;
        }
        proof {
            assert(quads@.take(n as int) =~= quads@);
            lemma_batch_no_collision(old(self).id2str@, self.id2str@, quads@);
        }
        Ok(())
    }

    /// Hands the batch to the store as whole column files and empties
    /// the worker for the next batch. It fails exactly when the batch
    /// dictionary disagrees with the store dictionary on a shared key,
    /// and even then leaves every store index untouched.
    pub fn save(&mut self, storage: &mut Storage) -> (r: Result<(), StorageError>)
        requires
            old(self).wf(),
            old(storage).wf(),
        ensures
            final(self).wf(),
            final(storage).wf(),
            forall|h: u128|
                #[trigger] old(storage).id2str@.contains_key(h) ==> final(storage).id2str@.contains_key(h) && final(storage).id2str@[h] == old(storage).id2str@[h],
            forall|h: u128|
                #[trigger] final(storage).id2str@.contains_key(h) ==> old(storage).id2str@.contains_key(h) || (old(self).id2str@.contains_key(h) && final(storage).id2str@[h] == old(self).id2str@[h]),
            r is Err <==> dicts_conflict(old(self).id2str@, old(storage).id2str@),
            r is Ok ==> forall|h: u128|
                #[trigger] old(self).id2str@.contains_key(h) ==> final(storage).id2str@.contains_key(h) && final(storage).id2str@[h] == old(self).id2str@[h],
            r is Ok ==> (forall|q: EncodedQuad|
                #[trigger] final(storage).triples().contains(q) <==> old(storage).triples().contains(q) || old(self).triples@.contains(q)) && (forall|
                q: EncodedQuad,
            |
                #[trigger] final(storage).named_quads().contains(q) <==> old(storage).named_quads().contains(q) || old(self).quads@.contains(q)) && (forall|
                g: EncodedTerm,
            |
                #[trigger] final(storage).graph_names().contains(g) <==> old(storage).graph_names().contains(g) || old(self).graphs@.contains(g)),
            r is Err ==> final(storage).triples() == old(storage).triples() && final(storage).named_quads() == old(storage).named_quads() && final(storage).graph_names() == old(storage).graph_names(),
    {
        match storage.ingest_encoded(&self.triples, &self.quads, &self.graphs, &self.id2str) {
            Ok(_) => {},
            Err(e) => {
                return Err(e);
            },
        }
        self.id2str = Dictionary::new();
        self.triples = Vec::new();
        self.quads = Vec::new();
        self.graphs = Vec::new();
        Ok(())
    }

    /// Encodes one batch and ingests it, adding the batch's
    /// deduplicated size, saturating, to the shared progress counter.
    /// It fails exactly on a hash collision between distinct strings of
    /// the batch and the store dictionary, and even then leaves every
    /// store index and the counter untouched.
    #[verifier::rlimit(100)]
    pub fn load(&mut self, storage: &mut Storage, quads: &Vec<Quad>, counter: &mut u64) -> (r:
        Result<(), StorageError>)
        requires
            old(self).wf(),
            old(storage).wf(),
            old(self).triples@ == Seq::<EncodedQuad>::empty(),
            old(self).quads@ == Seq::<EncodedQuad>::empty(),
            old(self).graphs@ == Seq::<EncodedTerm>::empty(),
            old(self).id2str@ == Map::<u128, Seq<char>>::empty(),
            forall|i: int| 0 <= i < quads@.len() ==> (#[trigger] quads@[i]).wf(),
        ensures
            final(self).wf(),
            final(storage).wf(),
            *final(counter) >= *old(counter),
            forall|h: u128|
                #[trigger] old(storage).id2str@.contains_key(h) ==> final(storage).id2str@.contains_key(h) && final(storage).id2str@[h] == old(storage).id2str@[h],
            forall|h: u128|
                #[trigger] final(storage).id2str@.contains_key(h) ==> old(storage).id2str@.contains_key(h) || (exists|i: int, s: Seq<char>|
                    0 <= i < quads@.len() && #[trigger] quad_interns(quads@[i], s)
                        && spec_str_hash(s) == h && final(storage).id2str@[h] == s),
            r is Err <==> batch_collision(old(storage).id2str@, quads@),
            r is Err ==> final(storage).triples() == old(storage).triples() && final(storage).named_quads() == old(storage).named_quads() && final(storage).graph_names() == old(storage).graph_names() && *final(counter) == *old(counter),
            r is Ok ==> forall|i: int, s: Seq<char>|
                0 <= i < quads@.len() && #[trigger] quad_interns(quads@[i], s) ==> final(storage).id2str@.contains_key(spec_str_hash(s)) && final(storage).id2str@[spec_str_hash(
                    s,
                )] == s,
            r is Ok ==> (forall|q: EncodedQuad|
                #[trigger] final(storage).triples().contains(q) <==> old(storage).triples().contains(q) || batch_image_default(quads@, q)) && (forall|
                q: EncodedQuad,
            |
                #[trigger] final(storage).named_quads().contains(q) <==> old(storage).named_quads().contains(q) || batch_image_named(quads@, q)) && (forall|
                g: EncodedTerm,
            |
                #[trigger] final(storage).graph_names().contains(g) <==> old(storage).graph_names().contains(g) || batch_graph_image(quads@, g)),
            r is Ok ==> exists|dt: Seq<EncodedQuad>, nq: Seq<EncodedQuad>|
                #![trigger dt.len(), nq.len()]
                dt.no_duplicates() && nq.no_duplicates() && (forall|e: EncodedQuad|
                    dt.contains(e) <==> batch_image_default(quads@, e)) && (forall|e: EncodedQuad|
                    nq.contains(e) <==> batch_image_named(quads@, e)) && *final(counter)
                    == saturating_counter_add(*old(counter), dt.len() + nq.len() as int),
    {
        match self.encode(quads) {
            Ok(_) => {},
            Err(e) => {
                proof {
                    assert(batch_collision(old(storage).id2str@, quads@)) by {
                        assert(batch_collision(old(self).id2str@, quads@));
                        assert(!(exists|i: int, s: Seq<char>|
                            0 <= i < quads@.len() && #[trigger] quad_interns(quads@[i], s)
                                && str_collides(old(self).id2str@, s)));
                    }
                }
                return Err(e);
            },
        }
        let ghost worker = self.id2str@;
        let ghost dts = self.triples@;
        let ghost nqs = self.quads@;
        let st: u64 = self.triples.len() as u64;
        let sq: u64 = self.quads.len() as u64;
        match self.save(storage) {
            Ok(_) => {},
            Err(e) => {
                proof {
                    assert(batch_collision(old(storage).id2str@, quads@)) by {
                        let h = choose|h: u128|
                            #[trigger] worker.contains_key(h) && old(storage).id2str@.contains_key(
                                h,
                            ) && worker[h] != old(storage).id2str@[h];
                        let (i, s) = choose|i: int, s: Seq<char>|
                            0 <= i < quads@.len() && #[trigger] quad_interns(quads@[i], s)
                                && spec_str_hash(s) == h && worker[h] == s;
                        assert(str_collides(old(storage).id2str@, s));
                        assert(0 <= i < quads@.len() && quad_interns(quads@[i], s) && str_collides(
                            old(storage).id2str@,
                            s,
                        ));
                    }
                    assert forall|h: u128| #[trigger] storage.id2str@.contains_key(h) implies old(storage).id2str@.contains_key(h) || (exists|i: int, s: Seq<char>|
                        0 <= i < quads@.len() && #[trigger] quad_interns(quads@[i], s)
                            && spec_str_hash(s) == h && storage.id2str@[h] == s) by {
                        if !old(storage).id2str@.contains_key(h) {
                            let (i, s) = choose|i: int, s: Seq<char>|
                                0 <= i < quads@.len() && #[trigger] quad_interns(quads@[i], s)
                                    && spec_str_hash(s) == h && worker[h] == s;
                            assert(storage.id2str@[h] == worker[h]);
                            assert(0 <= i < quads@.len() && quad_interns(quads@[i], s)
                                && spec_str_hash(s) == h && storage.id2str@[h] == s);
                        }
                    }
                }
                return Err(e);
            },
        }
        proof {
            assert forall|h: u128| #[trigger] storage.id2str@.contains_key(h) implies old(storage).id2str@.contains_key(h) || (exists|i: int, s: Seq<char>|
                0 <= i < quads@.len() && #[trigger] quad_interns(quads@[i], s) && spec_str_hash(s)
                    == h && storage.id2str@[h] == s) by {
                if !old(storage).id2str@.contains_key(h) {
                    let (i, s) = choose|i: int, s: Seq<char>|
                        0 <= i < quads@.len() && #[trigger] quad_interns(quads@[i], s)
                            && spec_str_hash(s) == h && worker[h] == s;
                    assert(storage.id2str@[h] == worker[h]);
                    assert(0 <= i < quads@.len() && quad_interns(quads@[i], s) && spec_str_hash(s)
                        == h && storage.id2str@[h] == s);
                }
            }
            assert(!batch_collision(old(storage).id2str@, quads@)) by {
                assert forall|i: int, s: Seq<char>|
                    0 <= i < quads@.len() && #[trigger] quad_interns(quads@[i], s) implies
                    !str_collides(old(storage).id2str@, s) by {
                    assert(worker.contains_key(spec_str_hash(s)) && worker[spec_str_hash(s)] == s);
                    if old(storage).id2str@.contains_key(spec_str_hash(s)) {
                        assert(!dicts_conflict(worker, old(storage).id2str@));
                        assert(old(storage).id2str@[spec_str_hash(s)] == s);
                    }
                }
                assert(!(exists|i: int, j: int, s1: Seq<char>, s2: Seq<char>|
                    0 <= i < quads@.len() && 0 <= j < quads@.len() && #[trigger] quad_interns(
                        quads@[i],
                        s1,
                    ) && #[trigger] quad_interns(quads@[j], s2) && s1 != s2 && spec_str_hash(s1)
                    == spec_str_hash(s2))) by {
                    assert(!batch_collision(Map::<u128, Seq<char>>::empty(), quads@));
                }
            }
            assert forall|i: int, s: Seq<char>|
                0 <= i < quads@.len() && #[trigger] quad_interns(quads@[i], s) implies final(storage).id2str@.contains_key(spec_str_hash(s)) && final(storage).id2str@[spec_str_hash(s)]
                == s by {
                assert(worker.contains_key(spec_str_hash(s)) && worker[spec_str_hash(s)] == s);
            }
            assert(dts.no_duplicates() && nqs.no_duplicates());
            assert(forall|e: EncodedQuad| dts.contains(e) <==> batch_image_default(quads@, e));
            assert(forall|e: EncodedQuad| nqs.contains(e) <==> batch_image_named(quads@, e));
            assert(st == dts.len() && sq == nqs.len());
        }
        let inc: u64 = match st.checked_add(sq) {
            Some(s) => s,
            None => u64::MAX,
        };
        if u64::MAX - *counter < inc {
            *counter = u64::MAX;
        } else {
            *counter = *counter + inc;
        }
        proof {
            assert(*counter == saturating_counter_add(*old(counter), dts.len() + nqs.len() as int));
            assert(dts.no_duplicates() && nqs.no_duplicates() && (forall|e: EncodedQuad|
                dts.contains(e) <==> batch_image_default(quads@, e)) && (forall|e: EncodedQuad|
                nqs.contains(e) <==> batch_image_named(quads@, e)) && *counter
                == saturating_counter_add(*old(counter), dts.len() + nqs.len() as int));
        }
        Ok(())
    }
}

proof fn lemma_image_chunk_split(qs: Seq<Quad>, i: int, end: int)
    requires
        0 <= i <= end <= qs.len(),
    ensures
        forall|e: EncodedQuad|
            #[trigger] batch_image_default(qs.take(end), e) <==> batch_image_default(
                qs.take(i),
                e,
            ) || batch_image_default(qs.subrange(i, end), e),
        forall|e: EncodedQuad|
            #[trigger] batch_image_named(qs.take(end), e) <==> batch_image_named(qs.take(i), e)
                || batch_image_named(qs.subrange(i, end), e),
        forall|g: EncodedTerm|
            #[trigger] batch_graph_image(qs.take(end), g) <==> batch_graph_image(qs.take(i), g)
                || batch_graph_image(qs.subrange(i, end), g),
{
    let whole = qs.take(end);
    let pre = qs.take(i);
    let chunk = qs.subrange(i, end);
    assert forall|e: EncodedQuad|
        #[trigger] batch_image_default(whole, e) <==> batch_image_default(pre, e)
            || batch_image_default(chunk, e) by {
        if batch_image_default(whole, e) {
            let j = choose|j: int|
                0 <= j < whole.len() && (#[trigger] whole[j]).graph_name is DefaultGraph
                    && encodes_model_quad(whole[j], e);
            if j < i {
                assert(pre[j] == whole[j]);
            } else {
                assert(chunk[j - i] == whole[j]);
            }
        }
        if batch_image_default(pre, e) {
            let j = choose|j: int|
                0 <= j < pre.len() && (#[trigger] pre[j]).graph_name is DefaultGraph
                    && encodes_model_quad(pre[j], e);
            assert(whole[j] == pre[j]);
        }
        if batch_image_default(chunk, e) {
            let j = choose|j: int|
                0 <= j < chunk.len() && (#[trigger] chunk[j]).graph_name is DefaultGraph
                    && encodes_model_quad(chunk[j], e);
            assert(whole[j + i] == chunk[j]);
        }
    }
    assert forall|e: EncodedQuad|
        #[trigger] batch_image_named(whole, e) <==> batch_image_named(pre, e)
            || batch_image_named(chunk, e) by {
        if batch_image_named(whole, e) {
            let j = choose|j: int|
                0 <= j < whole.len() && !((#[trigger] whole[j]).graph_name is DefaultGraph)
                    && encodes_model_quad(whole[j], e);
            if j < i {
                assert(pre[j] == whole[j]);
            } else {
                assert(chunk[j - i] == whole[j]);
            }
        }
        if batch_image_named(pre, e) {
            let j = choose|j: int|
                0 <= j < pre.len() && !((#[trigger] pre[j]).graph_name is DefaultGraph)
                    && encodes_model_quad(pre[j], e);
            assert(whole[j] == pre[j]);
        }
        if batch_image_named(chunk, e) {
            let j = choose|j: int|
                0 <= j < chunk.len() && !((#[trigger] chunk[j]).graph_name is DefaultGraph)
                    && encodes_model_quad(chunk[j], e);
            assert(whole[j + i] == chunk[j]);
        }
    }
    assert forall|g: EncodedTerm|
        #[trigger] batch_graph_image(whole, g) <==> batch_graph_image(pre, g)
            || batch_graph_image(chunk, g) by {
        if batch_graph_image(whole, g) {
            let j = choose|j: int|
                0 <= j < whole.len() && !((#[trigger] whole[j]).graph_name is DefaultGraph)
                    && encodes_model_term(whole[j].graph_name, g);
            if j < i {
                assert(pre[j] == whole[j]);
            } else {
                assert(chunk[j - i] == whole[j]);
            }
        }
        if batch_graph_image(pre, g) {
            let j = choose|j: int|
                0 <= j < pre.len() && !((#[trigger] pre[j]).graph_name is DefaultGraph)
                    && encodes_model_term(pre[j].graph_name, g);
            assert(whole[j] == pre[j]);
        }
        if batch_graph_image(chunk, g) {
            let j = choose|j: int|
                0 <= j < chunk.len() && !((#[trigger] chunk[j]).graph_name is DefaultGraph)
                    && encodes_model_term(chunk[j].graph_name, g);
            assert(whole[j + i] == chunk[j]);
        }
    }
}

/// Whether the progress hooks are due: the shared counter has crossed
/// another multiple of the reporting step since the last report.
pub fn should_report_progress(done: u64, done_and_displayed: u64) -> (r: bool)
    ensures
        r == (done / (DEFAULT_BULK_LOAD_BATCH_SIZE as u64) > done_and_displayed / (
        DEFAULT_BULK_LOAD_BATCH_SIZE as u64)),
{
    let step = DEFAULT_BULK_LOAD_BATCH_SIZE as u64;
    done / step > done_and_displayed / step
}

/// The batching coordinator: accumulates the input into batches sized
/// from the memory budget, hands each to a worker, and tracks progress
/// through a nondecreasing counter.
pub struct StorageBulkLoader {
    pub storage: Storage,
    pub num_threads: Option<usize>,
    pub max_memory_size: Option<usize>,
    pub done_counter: u64,
}

impl StorageBulkLoader {
    pub open spec fn wf(&self) -> bool {
        self.storage.wf()
    }

    /// The worker count the loader will use.
    pub open spec fn spec_num_threads(&self) -> int {
        match self.num_threads {
            Some(n) => n as int,
            None => 2,
        }
    }

    /// Quads per batch: the memory budget split across the workers.
    pub open spec fn spec_batch_size(&self) -> int {
        match self.max_memory_size {
            Some(mm) => (mm * 1000) / self.spec_num_threads(),
            None => DEFAULT_BULK_LOAD_BATCH_SIZE as int,
        }
    }

    pub fn new(storage: Storage) -> (r: StorageBulkLoader)
        requires
            storage.wf(),
        ensures
            r.wf(),
            r.storage == storage,
            r.num_threads is None,
            r.max_memory_size is None,
            r.done_counter == 0,
    {
        StorageBulkLoader { storage, num_threads: None, max_memory_size: None, done_counter: 0 }
    }

    pub fn with_num_threads(self, num_threads: usize) -> (r: StorageBulkLoader)
        ensures
            r == (StorageBulkLoader { num_threads: Some(num_threads), ..self }),
    {
        StorageBulkLoader { num_threads: Some(num_threads), ..self }
    }

    pub fn with_max_memory_size_in_megabytes(self, max_memory_size: usize) -> (r:
        StorageBulkLoader)
        ensures
            r == (StorageBulkLoader { max_memory_size: Some(max_memory_size), ..self }),
    {
        StorageBulkLoader { max_memory_size: Some(max_memory_size), ..self }
    }

    /// Hands the loaded store back.
    pub fn finish(self) -> (r: Storage)
        ensures
            r == self.storage,
    {
        self.storage
    }

    /// Loads a quad stream in batches. Too few workers or too small a
    /// memory budget fail fast before any mutation; past them the load
    /// fails exactly on a hash collision between distinct strings of
    /// the stream and the store dictionary, and a corrupt batch leaves
    /// earlier batches visible, as ingestion cannot be rolled back.
    #[verifier::rlimit(100)]
    pub fn load(&mut self, quads: &Vec<Quad>) -> (r: Result<(), StorageError>)
        requires
            old(self).wf(),
            forall|i: int| 0 <= i < quads@.len() ==> (#[trigger] quads@[i]).wf(),
        ensures
            final(self).wf(),
            final(self).done_counter >= old(self).done_counter,
            old(self).spec_num_threads() < 2 ==> (r matches Err(e) && e matches
                StorageError::Other(m) && m@ == "The bulk loader needs at least 2 threads"@
                && final(self).storage == old(self).storage),
            old(self).spec_num_threads() >= 2 && old(self).spec_batch_size() < 10000 ==> (r
                matches Err(e) && e matches StorageError::Other(m) && m@
                == "The bulk loader memory bound is too low. It needs at least 100MB"@ && final(self).storage == old(self).storage),
            old(self).spec_num_threads() >= 2 && old(self).spec_batch_size() >= 10000 ==> (r
                is Err <==> batch_collision(old(self).storage.id2str@, quads@)),
            r is Ok ==> (forall|q: EncodedQuad|
                #[trigger] final(self).storage.triples().contains(q) <==> old(self).storage.triples().contains(q) || batch_image_default(quads@, q)) && (forall|
                q: EncodedQuad,
            |
                #[trigger] final(self).storage.named_quads().contains(q) <==> old(self).storage.named_quads().contains(q) || batch_image_named(quads@, q)) && (forall|
                g: EncodedTerm,
            |
                #[trigger] final(self).storage.graph_names().contains(g) <==> old(self).storage.graph_names().contains(g) || batch_graph_image(quads@, g)),
    {
        let num_threads = match self.num_threads {
            Some(n) => n,
            None => 2,
        };
        if num_threads < 2 {
            return Err(
                StorageError::Other("The bulk loader needs at least 2 threads".to_owned()),
            );
        }
        let batch_size: usize = match self.max_memory_size {
            Some(mm) => {
                let wide: u128 = (mm as u128) * 1000 / (num_threads as u128);
                if wide > (usize::MAX as u128) {
                    usize::MAX
                } else {
                    wide as usize
                }
            },
            None => DEFAULT_BULK_LOAD_BATCH_SIZE,
        };
        proof {
            assert(batch_size == if self.spec_batch_size() > usize::MAX as int {
                usize::MAX as int
            } else {
                self.spec_batch_size()
            });
        }
        if batch_size < 10000 {
            return Err(
                StorageError::Other(
                    "The bulk loader memory bound is too low. It needs at least 100MB".to_owned(),
                ),
            );
        }
        let n = quads.len();
        let mut i: usize = 0;
        while i < n
            invariant
                self.wf(),
                n == quads@.len(),
                i <= n,
                batch_size >= 10000,
                old(self).spec_num_threads() >= 2,
                old(self).spec_batch_size() >= 10000,
                self.num_threads == old(self).num_threads,
                self.max_memory_size == old(self).max_memory_size,
                self.done_counter >= old(self).done_counter,
                forall|j: int| 0 <= j < quads@.len() ==> (#[trigger] quads@[j]).wf(),
                forall|q: EncodedQuad|
                    #[trigger] self.storage.triples().contains(q) <==> old(self).storage.triples().contains(q) || batch_image_default(
                        quads@.take(i as int),
                        q,
                    ),
                forall|q: EncodedQuad|
                    #[trigger] self.storage.named_quads().contains(q) <==> old(self).storage.named_quads().contains(q) || batch_image_named(
                        quads@.take(i as int),
                        q,
                    ),
                forall|g: EncodedTerm|
                    #[trigger] self.storage.graph_names().contains(g) <==> old(self).storage.graph_names().contains(g) || batch_graph_image(
                        quads@.take(i as int),
                        g,
                    ),
                forall|h: u128|
                    #[trigger] old(self).storage.id2str@.contains_key(h)
                        ==> self.storage.id2str@.contains_key(h) && self.storage.id2str@[h] == old(self).storage.id2str@[h],
                forall|h: u128|
                    #[trigger] self.storage.id2str@.contains_key(h) ==> old(self).storage.id2str@.contains_key(h) || (exists|j: int, s: Seq<char>|
                        0 <= j < i && #[trigger] quad_interns(quads@[j], s) && spec_str_hash(s)
                            == h && self.storage.id2str@[h] == s),
                forall|j: int, s: Seq<char>|
                    0 <= j < i && #[trigger] quad_interns(quads@[j], s)
                        ==> self.storage.id2str@.contains_key(spec_str_hash(s))
                        && self.storage.id2str@[spec_str_hash(s)] == s,
            decreases n - i,
        {
            let end = if n - i > batch_size {
                i + batch_size
            } else {
                n
            };
            let mut chunk: Vec<Quad> = Vec::new();
            let mut j: usize = i;
            while j < end
                invariant
                    n == quads@.len(),
                    i <= j <= end <= n,
                    chunk@ == quads@.subrange(i as int, j as int),
                decreases end - j,
            {
                chunk.push(quads[j].clone());
                proof {
                    assert(chunk@ =~= quads@.subrange(i as int, j + 1));
                }
                j = j + 1;
            }
            proof {
                assert forall|k2: int| 0 <= k2 < chunk@.len() implies (
                #[trigger] chunk@[k2]).wf() by {
                    assert(chunk@[k2] == quads@[i + k2]);
                }
            }
            let mut worker = FileBulkLoader::new(batch_size);
            let ghost pre_storage = self.storage;
            let ghost mpre = self.storage.id2str@;
            let mut counter = self.done_counter;
            match worker.load(&mut self.storage, &chunk, &mut counter) {
                Ok(_) => {},
                Err(e) => {
                    proof {
                        assert(chunk@ == quads@.subrange(i as int, end as int));
                        lemma_chunk_collision_lifts(
                            old(self).storage.id2str@,
                            mpre,
                            quads@,
                            i as int,
                            end as int,
                        );
                    }
                    return Err(e);
                },
            }
            self.done_counter = counter;
            proof {
                assert(chunk@ == quads@.subrange(i as int, end as int));
                lemma_batch_compose_chunk(
                    old(self).storage.id2str@,
                    mpre,
                    self.storage.id2str@,
                    quads@,
                    i as int,
                    end as int,
                );
                lemma_image_chunk_split(quads@, i as int, end as int);
            }
            i = end;
        }
        proof {
            assert(quads@.take(n as int) =~= quads@);
            lemma_batch_no_collision(old(self).storage.id2str@, self.storage.id2str@, quads@);
        }
        Ok(())
    }
}


/// The default-graph quads held after inserting a stream one quad at a
/// time through the transactional writer: each step adds exactly the
/// encoding of its quad, as `insert` promises.
pub open spec fn triples_after_single_inserts(base: Set<EncodedQuad>, qs: Seq<Quad>) -> Set<
    EncodedQuad,
>
    decreases qs.len(),
{
    if qs.len() == 0 {
        base
    } else {
        triples_after_single_inserts(base, qs.drop_last()).union(
            Set::new(
                |e: EncodedQuad|
                    qs.last().graph_name is DefaultGraph && encodes_model_quad(qs.last(), e),
            ),
        )
    }
}

/// The named-graph quads held after inserting a stream one quad at a
/// time through the transactional writer.
pub open spec fn named_after_single_inserts(base: Set<EncodedQuad>, qs: Seq<Quad>) -> Set<
    EncodedQuad,
>
    decreases qs.len(),
{
    if qs.len() == 0 {
        base
    } else {
        named_after_single_inserts(base, qs.drop_last()).union(
            Set::new(
                |e: EncodedQuad|
                    !(qs.last().graph_name is DefaultGraph) && encodes_model_quad(qs.last(), e),
            ),
        )
    }
}

/// Bulk load equivalence: loading a stream through the bulk loader
/// leaves the store holding, quad for quad, exactly what inserting the
/// same stream one by one through the writer leaves, over any base.
pub proof fn lemma_bulk_load_equivalence(base_t: Set<EncodedQuad>, base_n: Set<EncodedQuad>, qs: Seq<Quad>)
    ensures
        forall|e: EncodedQuad|
            #[trigger] triples_after_single_inserts(base_t, qs).contains(e) <==> base_t.contains(e)
                || batch_image_default(qs, e),
        forall|e: EncodedQuad|
            #[trigger] named_after_single_inserts(base_n, qs).contains(e) <==> base_n.contains(e)
                || batch_image_named(qs, e),
    decreases qs.len(),
{
    if qs.len() > 0 {
        lemma_bulk_load_equivalence(base_t, base_n, qs.drop_last());
        assert(triples_after_single_inserts(base_t, qs) == triples_after_single_inserts(
            base_t,
            qs.drop_last(),
        ).union(
            Set::new(
                |e2: EncodedQuad|
                    qs.last().graph_name is DefaultGraph && encodes_model_quad(qs.last(), e2),
            ),
        ));
        assert(named_after_single_inserts(base_n, qs) == named_after_single_inserts(
            base_n,
            qs.drop_last(),
        ).union(
            Set::new(
                |e2: EncodedQuad|
                    !(qs.last().graph_name is DefaultGraph) && encodes_model_quad(qs.last(), e2),
            ),
        ));
        assert forall|e: EncodedQuad|
            #[trigger] triples_after_single_inserts(base_t, qs).contains(e) <==> base_t.contains(
            e,
        ) || batch_image_default(qs, e) by {
            if triples_after_single_inserts(base_t, qs).contains(e) && !base_t.contains(e) {
                if batch_image_default(qs.drop_last(), e) {
                    let j = choose|j: int|
                        0 <= j < qs.drop_last().len() && (#[trigger] qs.drop_last()[j]).graph_name
                            is DefaultGraph && encodes_model_quad(qs.drop_last()[j], e);
                    assert(qs[j] == qs.drop_last()[j]);
                    assert(batch_image_default(qs, e));
                } else {
                    assert(triples_after_single_inserts(base_t, qs.drop_last()).contains(e)
                        || (qs.last().graph_name is DefaultGraph && encodes_model_quad(
                        qs.last(),
                        e,
                    )));
                    assert(qs[qs.len() - 1] == qs.last());
                    assert(batch_image_default(qs, e));
                }
            }
            if batch_image_default(qs, e) {
                let j = choose|j: int|
                    0 <= j < qs.len() && (#[trigger] qs[j]).graph_name is DefaultGraph
                        && encodes_model_quad(qs[j], e);
                if j < qs.len() - 1 {
                    assert(qs.drop_last()[j] == qs[j]);
                    assert(batch_image_default(qs.drop_last(), e));
                } else {
                    assert(qs.last() == qs[j]);
                }
                assert(triples_after_single_inserts(base_t, qs).contains(e));
            }
        }
        assert forall|e: EncodedQuad|
            #[trigger] named_after_single_inserts(base_n, qs).contains(e) <==> base_n.contains(e)
                || batch_image_named(qs, e) by {
            if named_after_single_inserts(base_n, qs).contains(e) && !base_n.contains(e) {
                if batch_image_named(qs.drop_last(), e) {
                    let j = choose|j: int|
                        0 <= j < qs.drop_last().len() && !((#[trigger] qs.drop_last()[j]).graph_name
                            is DefaultGraph) && encodes_model_quad(qs.drop_last()[j], e);
                    assert(qs[j] == qs.drop_last()[j]);
                    assert(batch_image_named(qs, e));
                } else {
                    assert(named_after_single_inserts(base_n, qs.drop_last()).contains(e)
                        || (!(qs.last().graph_name is DefaultGraph) && encodes_model_quad(
                        qs.last(),
                        e,
                    )));
                    assert(qs[qs.len() - 1] == qs.last());
                    assert(batch_image_named(qs, e));
                }
            }
            if batch_image_named(qs, e) {
                let j = choose|j: int|
                    0 <= j < qs.len() && !((#[trigger] qs[j]).graph_name is DefaultGraph)
                        && encodes_model_quad(qs[j], e);
                if j < qs.len() - 1 {
                    assert(qs.drop_last()[j] == qs[j]);
                    assert(batch_image_named(qs.drop_last(), e));
                } else {
                    assert(qs.last() == qs[j]);
                }
                assert(named_after_single_inserts(base_n, qs).contains(e));
            }
        }
    }
}

} // verus!
