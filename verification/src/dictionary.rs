//! The string dictionary: a mapping from the deterministic 128-bit hash
//! of a string to the string itself. Writers and the bulk loader add
//! entries; readers resolve hash references found in encoded terms.

use vstd::prelude::*;

use crate::error::StorageError;
use crate::numeric_encoder::{spec_str_hash, str_hash, StrHash};

verus! {

/// The mathematical content of an entry list: later entries win, which
/// never matters because keys are unique.
pub open spec fn dict_map_of(entries: Seq<(StrHash, String)>) -> Map<u128, Seq<char>>
    decreases entries.len(),
{
    if entries.len() == 0 {
        Map::empty()
    } else {
        dict_map_of(entries.drop_last()).insert(entries.last().0.hash, entries.last().1@)
    }
}

pub proof fn lemma_dict_map_domain(entries: Seq<(StrHash, String)>, h: u128)
    ensures
        dict_map_of(entries).contains_key(h) <==> exists|i: int|
            0 <= i < entries.len() && (#[trigger] entries[i]).0.hash == h,
    decreases entries.len(),
{
    if entries.len() > 0 {
        lemma_dict_map_domain(entries.drop_last(), h);
        if entries.last().0.hash == h {
            assert(entries[entries.len() - 1].0.hash == h);
        } else if dict_map_of(entries).contains_key(h) {
            assert(exists|i: int|
                0 <= i < entries.len() - 1 && (#[trigger] entries.drop_last()[i]).0.hash == h);
            let i = choose|i: int|
                0 <= i < entries.len() - 1 && (#[trigger] entries.drop_last()[i]).0.hash == h;
            assert(entries[i].0.hash == h);
        } else {
            assert forall|i: int| 0 <= i < entries.len() && (#[trigger] entries[i]).0.hash == h
                implies false by {
                if i < entries.len() - 1 {
                    assert(entries.drop_last()[i].0.hash == h);
                }
            }
        }
    }
}

pub proof fn lemma_dict_map_value(entries: Seq<(StrHash, String)>, i: int)
    requires
        0 <= i < entries.len(),
        forall|j: int| i < j < entries.len() ==> (#[trigger] entries[j]).0.hash != entries[i].0.hash,
    ensures
        dict_map_of(entries).contains_key(entries[i].0.hash),
        dict_map_of(entries)[entries[i].0.hash] == entries[i].1@,
    decreases entries.len(),
{
    if i == entries.len() - 1 {
    } else {
        assert forall|j: int| i < j < entries.len() - 1 implies (#[trigger] entries.drop_last()[j]).0.hash
            != entries.drop_last()[i].0.hash by {
            assert(entries[j].0.hash != entries[i].0.hash);
        }
        lemma_dict_map_value(entries.drop_last(), i);
        assert(entries[entries.len() - 1].0.hash != entries[i].0.hash);
    }
}

/// The hash-to-string dictionary (the `id2str` column family).
/// Append-only within a lifetime: removal of quads never removes strings.
pub struct Dictionary {
    pub entries: Vec<(StrHash, String)>,
}

impl View for Dictionary {
    type V = Map<u128, Seq<char>>;

    open spec fn view(&self) -> Map<u128, Seq<char>> {
        dict_map_of(self.entries@)
    }
}

impl Dictionary {
    /// Keys are unique, and every entry's key is the hash of its string,
    /// so a resolved reference always hashes back to itself.
    pub open spec fn wf(&self) -> bool {
        &&& forall|i: int, j: int|
            0 <= i < j < self.entries@.len() ==> (#[trigger] self.entries@[i]).0.hash != (
            #[trigger] self.entries@[j]).0.hash
        &&& forall|i: int|
            0 <= i < self.entries@.len() ==> (#[trigger] self.entries@[i]).0.hash == spec_str_hash(
                self.entries@[i].1@,
            )
    }

    pub fn new() -> (r: Dictionary)
        ensures
            r.wf(),
            r@ == Map::<u128, Seq<char>>::empty(),
    {
        Dictionary { entries: Vec::new() }
    }

    /// How many strings are interned.
    pub fn len(&self) -> (r: usize)
        requires
            self.wf(),
        ensures
            r == self.entries@.len(),
    {
        self.entries.len()
    }

    pub fn contains(&self, key: &StrHash) -> (r: bool)
        requires
            self.wf(),
        ensures
            r == self@.contains_key(key.hash),
    {
        let n = self.entries.len();
        let mut i: usize = 0;
        while i < n
            invariant
                self.wf(),
                n == self.entries@.len(),
                i <= n,
                forall|j: int| 0 <= j < i ==> (#[trigger] self.entries@[j]).0.hash != key.hash,
            decreases n - i,
        {
            if self.entries[i].0.hash == key.hash {
                proof {
                    lemma_dict_map_domain(self.entries@, key.hash);
                }
                return true;
            }
            i = i + 1;
        }
        proof {
            lemma_dict_map_domain(self.entries@, key.hash);
        }
        false
    }

    /// Resolves a hash reference to the interned string.
    pub fn get(&self, key: &StrHash) -> (r: Option<String>)
        requires
            self.wf(),
        ensures
            r matches Some(s) ==> self@.contains_key(key.hash) && s@ == self@[key.hash],
            r is None ==> !self@.contains_key(key.hash),
    {
        let n = self.entries.len();
        let mut i: usize = 0;
        while i < n
            invariant
                self.wf(),
                n == self.entries@.len(),
                i <= n,
                forall|j: int| 0 <= j < i ==> (#[trigger] self.entries@[j]).0.hash != key.hash,
            decreases n - i,
        {
            if self.entries[i].0.hash == key.hash {
                proof {
                    assert forall|j: int|
                        i < j < self.entries@.len() implies (#[trigger] self.entries@[j]).0.hash
                        != self.entries@[i as int].0.hash by {}
                    lemma_dict_map_value(self.entries@, i as int);
                }
                return Some(self.entries[i].1.clone());
            }
            i = i + 1;
        }
        proof {
            lemma_dict_map_domain(self.entries@, key.hash);
        }
        None
    }

    /// Interns a string under its hash. Idempotent for an already-interned
    /// string; a key that is not the string's hash, or a second distinct
    /// string with the same hash, is rejected as corruption.
    pub fn put(&mut self, key: StrHash, value: String) -> (r: Result<(), StorageError>)
        requires
            old(self).wf(),
        ensures
            final(self).wf(),
            r is Ok ==> key.hash == spec_str_hash(value@) && final(self)@ == old(self)@.insert(
                key.hash,
                value@,
            ) && (old(self)@.contains_key(key.hash) ==> old(self)@[key.hash] == value@),
            r is Err ==> final(self)@ == old(self)@ && (key.hash != spec_str_hash(value@) || (old(
                self,
            )@.contains_key(key.hash) && old(self)@[key.hash] != value@)),
            final(self)@.dom().subset_of(old(self)@.dom().insert(key.hash)),
    {
        let computed = str_hash(value.as_str());
        if computed.hash != key.hash {
            return Err(StorageError::Corruption("string does not match its hash key".to_owned()));
        }
        let n = self.entries.len();
        let mut i: usize = 0;
        while i < n
            invariant
                self.wf(),
                n == self.entries@.len(),
                i <= n,
                forall|j: int| 0 <= j < i ==> (#[trigger] self.entries@[j]).0.hash != key.hash,
            decreases n - i,
        {
            if self.entries[i].0.hash == key.hash {
                proof {
                    assert forall|j: int|
                        i < j < self.entries@.len() implies (#[trigger] self.entries@[j]).0.hash
                        != self.entries@[i as int].0.hash by {}
                    lemma_dict_map_value(self.entries@, i as int);
                }
                if self.entries[i].1 == value {
                    proof {
                        assert(self@.insert(key.hash, value@) =~= self@);
                    }
                    return Ok(());
                } else {
                    return Err(StorageError::Corruption("two strings share one hash".to_owned()));
                }
            }
            i = i + 1;
        }
        proof {
            lemma_dict_map_domain(self.entries@, key.hash);
        }
        let ghost old_entries = self.entries@;
        self.entries.push((key, value));
        proof {
            assert(self.entries@.drop_last() =~= old_entries);
            assert(self.entries@.last() == (key, value));
            assert(self@ == dict_map_of(old_entries).insert(key.hash, value@));
            assert forall|i2: int, j2: int|
                0 <= i2 < j2 < self.entries@.len() implies (#[trigger] self.entries@[i2]).0.hash
                != (#[trigger] self.entries@[j2]).0.hash by {
                if j2 < self.entries@.len() - 1 {
                    assert(old_entries[i2] == self.entries@[i2]);
                    assert(old_entries[j2] == self.entries@[j2]);
                } else {
                    assert(old_entries[i2] == self.entries@[i2]);
                }
            }
        }
        Ok(())
    }
}

} // verus!
