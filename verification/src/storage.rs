//! The multi-index store: three permuted indexes for default-graph
//! triples, six for named-graph quads, the named-graph set and the
//! string dictionary, kept in sync by every mutation.

use vstd::prelude::*;
use vstd::seq_lib::group_seq_properties;

use crate::binary_encoder::{QuadEncoding, LATEST_STORAGE_VERSION};
use crate::dictionary::Dictionary;
use crate::error::StorageError;
use crate::model::{
    encode_model_quad, encode_model_term, encodes_model_quad, encodes_model_term,
    insert_quad_terms, insert_term, lemma_encodes_model_quad_wf, lemma_encodes_model_term_wf,
    quad_collision, quad_interns, term_collision, term_interns, Quad, Term,
};
use crate::numeric_encoder::{spec_str_hash, EncodedQuad, EncodedTerm, StrHash};

verus! {

broadcast use group_seq_properties;

/// The predicate that drops exactly `q`.
pub open spec fn not_quad(q: EncodedQuad) -> spec_fn(EncodedQuad) -> bool {
    |x: EncodedQuad| x != q
}

/// The predicate that drops the quads of graph `g`.
pub open spec fn not_in_graph(g: EncodedTerm) -> spec_fn(EncodedQuad) -> bool {
    |x: EncodedQuad| x.graph_name != g
}

/// The predicate that drops exactly the term `t`.
pub open spec fn not_term(t: EncodedTerm) -> spec_fn(EncodedTerm) -> bool {
    |x: EncodedTerm| x != t
}

pub(crate) proof fn lemma_push_no_dup<A>(s: Seq<A>, x: A)
    requires
        s.no_duplicates(),
        !s.contains(x),
    ensures
        s.push(x).no_duplicates(),
{
    let t = s.push(x);
    assert forall|i: int, j: int| 0 <= i < j < t.len() implies t[i] != t[j] by {
        if j < s.len() {
        } else {
            assert(t[j] == x);
            assert(t[i] == s[i]);
            assert(s.contains(s[i]));
        }
    }
}

proof fn lemma_filter_no_dup<A>(s: Seq<A>, p: spec_fn(A) -> bool)
    requires
        s.no_duplicates(),
    ensures
        s.filter(p).no_duplicates(),
    decreases s.len(),
{
    reveal(Seq::filter);
    if s.len() > 0 {
        let s0 = s.drop_last();
        assert(s0.no_duplicates());
        lemma_filter_no_dup(s0, p);
        if p(s.last()) {
            assert(!s0.contains(s.last()));
            if s0.filter(p).contains(s.last()) {
                s0.lemma_filter_contains_rev(p, s.last());
            }
            lemma_push_no_dup(s0.filter(p), s.last());
        }
    }
}

proof fn lemma_filter_all_true<A>(s: Seq<A>, p: spec_fn(A) -> bool)
    requires
        forall|i: int| 0 <= i < s.len() ==> p(#[trigger] s[i]),
    ensures
        s.filter(p) == s,
    decreases s.len(),
{
    reveal(Seq::filter);
    if s.len() > 0 {
        let s0 = s.drop_last();
        lemma_filter_all_true(s0, p);
        assert(p(s.last()));
        assert(s.filter(p) =~= s0.push(s.last()));
        assert(s0.push(s.last()) =~= s);
    }
}

proof fn lemma_filter_drop_one_len<A>(s: Seq<A>, x: A)
    requires
        s.no_duplicates(),
        s.contains(x),
    ensures
        s.filter(|y: A| y != x).len() == s.len() - 1,
    decreases s.len(),
{
    reveal(Seq::filter);
    let p = |y: A| y != x;
    let s0 = s.drop_last();
    if s.last() == x {
        assert(!s0.contains(x));
        assert forall|i: int| 0 <= i < s0.len() implies p(#[trigger] s0[i]) by {
            assert(s0.contains(s0[i]));
        }
        lemma_filter_all_true(s0, p);
    } else {
        assert(s0.contains(x)) by {
            let i = choose|i: int| 0 <= i < s.len() && s[i] == x;
            assert(s0[i] == x);
        }
        lemma_filter_drop_one_len(s0, x);
    }
}

/// Two index columns hold the same quads; the second in some permuted
/// order, also free of duplicates.
pub open spec fn index_coherent(a: Seq<EncodedQuad>, b: Seq<EncodedQuad>) -> bool {
    b.no_duplicates() && forall|q: EncodedQuad| b.contains(q) <==> a.contains(q)
}

/// The multi-index store. Every committed state satisfies `wf`: the
/// three default-graph indexes agree, the six named-graph indexes agree,
/// every named-graph quad's graph is registered, and every hash
/// reference resolves in the dictionary.
pub struct Storage {
    pub dspo: Vec<EncodedQuad>,
    pub dpos: Vec<EncodedQuad>,
    pub dosp: Vec<EncodedQuad>,
    pub spog: Vec<EncodedQuad>,
    pub posg: Vec<EncodedQuad>,
    pub ospg: Vec<EncodedQuad>,
    pub gspo: Vec<EncodedQuad>,
    pub gpos: Vec<EncodedQuad>,
    pub gosp: Vec<EncodedQuad>,
    pub graphs: Vec<EncodedTerm>,
    pub id2str: Dictionary,
    pub version: u64,
}

impl Storage {
    /// Invariants 1 to 6 of the storage design.
    pub open spec fn wf(&self) -> bool {
        &&& self.dspo@.no_duplicates()
        &&& index_coherent(self.dspo@, self.dpos@)
        &&& index_coherent(self.dspo@, self.dosp@)
        &&& self.spog@.no_duplicates()
        &&& index_coherent(self.spog@, self.posg@)
        &&& index_coherent(self.spog@, self.ospg@)
        &&& index_coherent(self.spog@, self.gspo@)
        &&& index_coherent(self.spog@, self.gpos@)
        &&& index_coherent(self.spog@, self.gosp@)
        &&& self.graphs@.no_duplicates()
        &&& forall|q: EncodedQuad|
            #[trigger] self.dspo@.contains(q) ==> q.wf() && q.graph_name is DefaultGraph
                && q.hash_refs() <= self.id2str@.dom()
        &&& forall|q: EncodedQuad|
            #[trigger] self.spog@.contains(q) ==> q.wf() && !(q.graph_name is DefaultGraph)
                && q.hash_refs() <= self.id2str@.dom() && self.graphs@.contains(q.graph_name)
        &&& forall|g: EncodedTerm|
            #[trigger] self.graphs@.contains(g) ==> g.wf() && g.spec_is_named_or_blank()
                && g.hash_refs() <= self.id2str@.dom()
        &&& self.id2str.wf()
        &&& self.version == LATEST_STORAGE_VERSION
    }

    /// The default-graph triples, as stored in `dspo`.
    pub open spec fn triples(&self) -> Seq<EncodedQuad> {
        self.dspo@
    }

    /// The named-graph quads, as stored in `spog`.
    pub open spec fn named_quads(&self) -> Seq<EncodedQuad> {
        self.spog@
    }

    /// The registered graph names.
    pub open spec fn graph_names(&self) -> Seq<EncodedTerm> {
        self.graphs@
    }

    /// An empty store at the current format version.
    pub fn new() -> (r: Result<Storage, StorageError>)
        ensures
            r matches Ok(s) && s.wf() && s.triples().len() == 0 && s.named_quads().len() == 0
                && s.graph_names().len() == 0 && s.id2str@.dom() =~= Set::empty(),
    {
        Ok(
            Storage {
                dspo: Vec::new(),
                dpos: Vec::new(),
                dosp: Vec::new(),
                spog: Vec::new(),
                posg: Vec::new(),
                ospg: Vec::new(),
                gspo: Vec::new(),
                gpos: Vec::new(),
                gosp: Vec::new(),
                graphs: Vec::new(),
                id2str: Dictionary::new(),
                version: LATEST_STORAGE_VERSION,
            },
        )
    }

    /// Opens a store persisted under the given format version: any
    /// version other than the supported one is refused as corruption.
    pub fn open_with_version(version: u64) -> (r: Result<Storage, StorageError>)
        ensures
            version == LATEST_STORAGE_VERSION ==> (r matches Ok(s) && s.wf() && s.triples().len()
                == 0 && s.named_quads().len() == 0 && s.graph_names().len() == 0),
            version != LATEST_STORAGE_VERSION ==> (r matches Err(e) && e matches
                StorageError::Corruption(m) && m@ == "invalid storage version"@),
    {
        if crate::binary_encoder::is_supported_storage_version(version) {
            Storage::new()
        } else {
            Err(StorageError::Corruption("invalid storage version".to_owned()))
        }
    }
}

/// Whether `v` holds `q`.
pub(crate) fn contains_quad(v: &Vec<EncodedQuad>, q: &EncodedQuad) -> (r: bool)
    ensures
        r == v@.contains(*q),
{
    let n = v.len();
    let mut i: usize = 0;
    while i < n
        invariant
            n == v@.len(),
            i <= n,
            forall|j: int| 0 <= j < i ==> v@[j] != *q,
        decreases n - i,
    {
        if v[i] == *q {
            return true;
        }
        i = i + 1;
    }
    proof {
        assert forall|j: int| 0 <= j < v@.len() implies v@[j] != *q by {}
    }
    false
}

/// Whether `v` holds `t`.
pub(crate) fn contains_term(v: &Vec<EncodedTerm>, t: &EncodedTerm) -> (r: bool)
    ensures
        r == v@.contains(*t),
{
    let n = v.len();
    let mut i: usize = 0;
    while i < n
        invariant
            n == v@.len(),
            i <= n,
            forall|j: int| 0 <= j < i ==> v@[j] != *t,
        decreases n - i,
    {
        if v[i] == *t {
            return true;
        }
        i = i + 1;
    }
    false
}

/// The quads of `v` other than `q`.
fn quads_without(v: &Vec<EncodedQuad>, q: &EncodedQuad) -> (r: Vec<EncodedQuad>)
    ensures
        r@ == v@.filter(not_quad(*q)),
{
    let n = v.len();
    let mut out: Vec<EncodedQuad> = Vec::new();
    let mut i: usize = 0;
    proof {
        reveal(Seq::filter);
        assert(v@.take(0).filter(not_quad(*q)) =~= Seq::<EncodedQuad>::empty());
    }
    while i < n
        invariant
            n == v@.len(),
            i <= n,
            out@ == v@.take(i as int).filter(not_quad(*q)),
        decreases n - i,
    {
        proof {
            reveal(Seq::filter);
            assert(v@.take(i + 1).drop_last() =~= v@.take(i as int));
            assert(v@.take(i + 1).last() == v@[i as int]);
        }
        if !(v[i] == *q) {
            out.push(v[i]);
        }
        i = i + 1;
    }
    proof {
        assert(v@.take(n as int) =~= v@);
    }
    out
}

/// The quads of `v` outside graph `g`.
fn quads_without_graph(v: &Vec<EncodedQuad>, g: &EncodedTerm) -> (r: Vec<EncodedQuad>)
    ensures
        r@ == v@.filter(not_in_graph(*g)),
{
    let n = v.len();
    let mut out: Vec<EncodedQuad> = Vec::new();
    let mut i: usize = 0;
    proof {
        reveal(Seq::filter);
        assert(v@.take(0).filter(not_in_graph(*g)) =~= Seq::<EncodedQuad>::empty());
    }
    while i < n
        invariant
            n == v@.len(),
            i <= n,
            out@ == v@.take(i as int).filter(not_in_graph(*g)),
        decreases n - i,
    {
        proof {
            reveal(Seq::filter);
            assert(v@.take(i + 1).drop_last() =~= v@.take(i as int));
            assert(v@.take(i + 1).last() == v@[i as int]);
        }
        if !(v[i].graph_name == *g) {
            out.push(v[i]);
        }
        i = i + 1;
    }
    proof {
        assert(v@.take(n as int) =~= v@);
    }
    out
}

/// The terms of `v` other than `t`.
fn terms_without(v: &Vec<EncodedTerm>, t: &EncodedTerm) -> (r: Vec<EncodedTerm>)
    ensures
        r@ == v@.filter(not_term(*t)),
{
    let n = v.len();
    let mut out: Vec<EncodedTerm> = Vec::new();
    let mut i: usize = 0;
    proof {
        reveal(Seq::filter);
        assert(v@.take(0).filter(not_term(*t)) =~= Seq::<EncodedTerm>::empty());
    }
    while i < n
        invariant
            n == v@.len(),
            i <= n,
            out@ == v@.take(i as int).filter(not_term(*t)),
        decreases n - i,
    {
        proof {
            reveal(Seq::filter);
            assert(v@.take(i + 1).drop_last() =~= v@.take(i as int));
            assert(v@.take(i + 1).last() == v@[i as int]);
        }
        if !(v[i] == *t) {
            out.push(v[i]);
        }
        i = i + 1;
    }
    proof {
        assert(v@.take(n as int) =~= v@);
    }
    out
}

impl Storage {
    /// Inserts one decoded quad: probes the primary index, and when the
    /// quad is new writes every affected permutation, interns the
    /// strings, and registers a new graph name. Returns whether the quad
    /// was not already present. It fails exactly on a dictionary hash
    /// collision between distinct strings, and even then leaves every
    /// index untouched and adds at most entries that map a quad string's
    /// own hash to that string.
    pub fn insert(&mut self, quad: &Quad) -> (r: Result<bool, StorageError>)
        requires
            old(self).wf(),
            quad.wf(),
        ensures
            final(self).wf(),
            forall|h: u128|
                #[trigger] old(self).id2str@.contains_key(h) ==> final(self).id2str@.contains_key(
                    h,
                ) && final(self).id2str@[h] == old(self).id2str@[h],
            forall|h: u128|
                #[trigger] final(self).id2str@.contains_key(h) ==> old(self).id2str@.contains_key(
                    h,
                ) || (exists|s: Seq<char>|
                    #[trigger] quad_interns(*quad, s) && spec_str_hash(s) == h && final(self).id2str@[h] == s),
            r is Err <==> quad_collision(old(self).id2str@, *quad),
            r is Err ==> final(self).triples() == old(self).triples()
                && final(self).named_quads() == old(self).named_quads()
                && final(self).graph_names() == old(self).graph_names(),
            r matches Ok(b) ==> forall|e: EncodedQuad|
                #[trigger] encodes_model_quad(*quad, e) ==> (if quad.graph_name is DefaultGraph {
                    b == !old(self).triples().contains(e)
                        && final(self).named_quads() == old(self).named_quads()
                        && final(self).graph_names() == old(self).graph_names()
                        && (if b {
                            final(self).triples() == old(self).triples().push(e)
                        } else {
                            final(self).triples() == old(self).triples()
                        })
                } else {
                    b == !old(self).named_quads().contains(e)
                        && final(self).triples() == old(self).triples()
                        && (if b {
                            final(self).named_quads() == old(self).named_quads().push(e)
                                && (if old(self).graph_names().contains(e.graph_name) {
                                    final(self).graph_names() == old(self).graph_names()
                                } else {
                                    final(self).graph_names() == old(self).graph_names().push(e.graph_name)
                                })
                        } else {
                            final(self).named_quads() == old(self).named_quads()
                                && final(self).graph_names() == old(self).graph_names()
                        })
                }),
    {
        let e = match insert_quad_terms(quad, &mut self.id2str) {
            Ok(e) => e,
            Err(err) => {
                return Err(err);
            },
        };
        proof {
            lemma_encodes_model_quad_wf(*quad, e);
            assert forall|e2: EncodedQuad| #[trigger]
                encodes_model_quad(*quad, e2) implies e2 == e by {
                crate::model::lemma_encodes_model_quad_functional(*quad, e2, e);
            }
        }
        if e.graph_name.is_default_graph() {
            if contains_quad(&self.dspo, &e) {
                Ok(false)
            } else {
                let ghost old_dspo = self.dspo@;
                self.dspo.push(e);
                self.dpos.push(e);
                self.dosp.push(e);
                proof {
                    lemma_push_no_dup(old_dspo, e);
                }
                Ok(true)
            }
        } else {
            if contains_quad(&self.spog, &e) {
                Ok(false)
            } else {
                let ghost old_spog = self.spog@;
                self.spog.push(e);
                self.posg.push(e);
                self.ospg.push(e);
                self.gspo.push(e);
                self.gpos.push(e);
                self.gosp.push(e);
                proof {
                    lemma_push_no_dup(old_spog, e);
                }
                if !contains_term(&self.graphs, &e.graph_name) {
                    let ghost old_graphs = self.graphs@;
                    self.graphs.push(e.graph_name);
                    proof {
                        lemma_push_no_dup(old_graphs, e.graph_name);
                    }
                }
                Ok(true)
            }
        }
    }
}

proof fn lemma_filter_mem<A>(s: Seq<A>, p: spec_fn(A) -> bool)
    ensures
        forall|x: A| #[trigger] s.filter(p).contains(x) <==> s.contains(x) && p(x),
{
    assert forall|x: A| #[trigger] s.filter(p).contains(x) implies s.contains(x) && p(x) by {
        s.lemma_filter_contains_rev(p, x);
        s.filter_lemma(p);
        let i = choose|i: int| 0 <= i < s.filter(p).len() && s.filter(p)[i] == x;
        assert(p(s.filter(p)[i]));
    }
    assert forall|x: A| s.contains(x) && p(x) implies #[trigger] s.filter(p).contains(x) by {
        s.filter_lemma(p);
        let i = choose|i: int| 0 <= i < s.len() && s[i] == x;
        assert(s.filter(p).contains(s[i]));
    }
}

impl Storage {
    /// Removes one already-encoded quad from every index that holds it.
    /// Graph names stay registered: graphs have their own lifecycle.
    pub fn remove_encoded(&mut self, e: &EncodedQuad) -> (r: Result<bool, StorageError>)
        requires
            old(self).wf(),
        ensures
            final(self).wf(),
            final(self).id2str == old(self).id2str,
            final(self).graph_names() == old(self).graph_names(),
            e.graph_name is DefaultGraph ==> (r matches Ok(b) && b == old(self).triples().contains(*e)
                && final(self).triples() == old(self).triples().filter(not_quad(*e))
                && final(self).named_quads() == old(self).named_quads()),
            !(e.graph_name is DefaultGraph) ==> (r matches Ok(b)
                && b == old(self).named_quads().contains(*e)
                && final(self).named_quads() == old(self).named_quads().filter(not_quad(*e))
                && final(self).triples() == old(self).triples()),
    {
        if e.graph_name.is_default_graph() {
            let present = contains_quad(&self.dspo, e);
            if present {
                let d1 = quads_without(&self.dspo, e);
                let d2 = quads_without(&self.dpos, e);
                let d3 = quads_without(&self.dosp, e);
                proof {
                    lemma_filter_no_dup(self.dspo@, not_quad(*e));
                    lemma_filter_no_dup(self.dpos@, not_quad(*e));
                    lemma_filter_no_dup(self.dosp@, not_quad(*e));
                    lemma_filter_mem(self.dspo@, not_quad(*e));
                    lemma_filter_mem(self.dpos@, not_quad(*e));
                    lemma_filter_mem(self.dosp@, not_quad(*e));
                }
                self.dspo = d1;
                self.dpos = d2;
                self.dosp = d3;
            } else {
                proof {
                    assert forall|i: int| 0 <= i < self.dspo@.len() implies not_quad(*e)(
                        #[trigger] self.dspo@[i],
                    ) by {
                        assert(self.dspo@.contains(self.dspo@[i]));
                    }
                    lemma_filter_all_true(self.dspo@, not_quad(*e));
                }
            }
            Ok(present)
        } else {
            let present = contains_quad(&self.spog, e);
            if present {
                let n1 = quads_without(&self.spog, e);
                let n2 = quads_without(&self.posg, e);
                let n3 = quads_without(&self.ospg, e);
                let n4 = quads_without(&self.gspo, e);
                let n5 = quads_without(&self.gpos, e);
                let n6 = quads_without(&self.gosp, e);
                proof {
                    lemma_filter_no_dup(self.spog@, not_quad(*e));
                    lemma_filter_no_dup(self.posg@, not_quad(*e));
                    lemma_filter_no_dup(self.ospg@, not_quad(*e));
                    lemma_filter_no_dup(self.gspo@, not_quad(*e));
                    lemma_filter_no_dup(self.gpos@, not_quad(*e));
                    lemma_filter_no_dup(self.gosp@, not_quad(*e));
                    lemma_filter_mem(self.spog@, not_quad(*e));
                    lemma_filter_mem(self.posg@, not_quad(*e));
                    lemma_filter_mem(self.ospg@, not_quad(*e));
                    lemma_filter_mem(self.gspo@, not_quad(*e));
                    lemma_filter_mem(self.gpos@, not_quad(*e));
                    lemma_filter_mem(self.gosp@, not_quad(*e));
                }
                self.spog = n1;
                self.posg = n2;
                self.ospg = n3;
                self.gspo = n4;
                self.gpos = n5;
                self.gosp = n6;
            } else {
                proof {
                    assert forall|i: int| 0 <= i < self.spog@.len() implies not_quad(*e)(
                        #[trigger] self.spog@[i],
                    ) by {
                        assert(self.spog@.contains(self.spog@[i]));
                    }
                    lemma_filter_all_true(self.spog@, not_quad(*e));
                }
            }
            Ok(present)
        }
    }

    /// Removes one decoded quad; symmetric to `insert`, but the graph
    /// name stays registered.
    pub fn remove(&mut self, quad: &Quad) -> (r: Result<bool, StorageError>)
        requires
            old(self).wf(),
            quad.wf(),
        ensures
            final(self).wf(),
            final(self).id2str == old(self).id2str,
            final(self).graph_names() == old(self).graph_names(),
            r is Ok,
            r matches Ok(b) ==> forall|e: EncodedQuad|
                #[trigger] encodes_model_quad(*quad, e) ==> (if quad.graph_name is DefaultGraph {
                    b == old(self).triples().contains(e)
                        && final(self).triples() == old(self).triples().filter(not_quad(e))
                        && final(self).named_quads() == old(self).named_quads()
                } else {
                    b == old(self).named_quads().contains(e)
                        && final(self).named_quads() == old(self).named_quads().filter(not_quad(e))
                        && final(self).triples() == old(self).triples()
                }),
    {
        let e = encode_model_quad(quad);
        proof {
            lemma_encodes_model_quad_wf(*quad, e);
            assert forall|e2: EncodedQuad| #[trigger]
                encodes_model_quad(*quad, e2) implies e2 == e by {
                crate::model::lemma_encodes_model_quad_functional(*quad, e2, e);
            }
        }
        self.remove_encoded(&e)
    }

    /// Registers a graph name, interning its string; returns whether it
    /// was new. It fails exactly on a dictionary hash collision between
    /// the name's string and a differently valued entry.
    pub fn insert_named_graph(&mut self, graph_name: &Term) -> (r: Result<bool, StorageError>)
        requires
            old(self).wf(),
            graph_name.spec_is_named_or_blank(),
        ensures
            final(self).wf(),
            final(self).triples() == old(self).triples(),
            final(self).named_quads() == old(self).named_quads(),
            forall|h: u128|
                #[trigger] old(self).id2str@.contains_key(h) ==> final(self).id2str@.contains_key(
                    h,
                ) && final(self).id2str@[h] == old(self).id2str@[h],
            forall|h: u128|
                #[trigger] final(self).id2str@.contains_key(h) ==> old(self).id2str@.contains_key(
                    h,
                ) || (exists|s: Seq<char>|
                    #[trigger] term_interns(*graph_name, s) && spec_str_hash(s) == h && final(self).id2str@[h] == s),
            r is Err <==> term_collision(old(self).id2str@, *graph_name),
            r is Err ==> final(self).graph_names() == old(self).graph_names(),
            r matches Ok(b) ==> forall|e: EncodedTerm|
                #[trigger] encodes_model_term(*graph_name, e) ==> b == !old(self).graph_names().contains(e) && (if b {
                    final(self).graph_names() == old(self).graph_names().push(e)
                } else {
                    final(self).graph_names() == old(self).graph_names()
                }),
    {
        let e = match insert_term(graph_name, &mut self.id2str) {
            Ok(e) => e,
            Err(err) => {
                return Err(err);
            },
        };
        proof {
            lemma_encodes_model_term_wf(*graph_name, e);
            assert forall|e2: EncodedTerm| #[trigger]
                encodes_model_term(*graph_name, e2) implies e2 == e by {
                crate::model::lemma_encodes_model_term_functional(*graph_name, e2, e);
            }
        }
        if contains_term(&self.graphs, &e) {
            Ok(false)
        } else {
            let ghost old_graphs = self.graphs@;
            self.graphs.push(e);
            proof {
                lemma_push_no_dup(old_graphs, e);
            }
            Ok(true)
        }
    }

    /// Removes a graph: all its quads leave every named index, and its
    /// name leaves the graph set, in one step.
    pub fn remove_encoded_named_graph(&mut self, g: &EncodedTerm) -> (r: Result<
        bool,
        StorageError,
    >)
        requires
            old(self).wf(),
        ensures
            final(self).wf(),
            final(self).id2str == old(self).id2str,
            final(self).triples() == old(self).triples(),
            r matches Ok(b) && b == old(self).graph_names().contains(*g),
            final(self).named_quads() == old(self).named_quads().filter(not_in_graph(*g)),
            final(self).graph_names() == old(self).graph_names().filter(not_term(*g)),
    {
        let present = contains_term(&self.graphs, g);
        if present {
            let n1 = quads_without_graph(&self.spog, g);
            let n2 = quads_without_graph(&self.posg, g);
            let n3 = quads_without_graph(&self.ospg, g);
            let n4 = quads_without_graph(&self.gspo, g);
            let n5 = quads_without_graph(&self.gpos, g);
            let n6 = quads_without_graph(&self.gosp, g);
            let g1 = terms_without(&self.graphs, g);
            proof {
                lemma_filter_no_dup(self.spog@, not_in_graph(*g));
                lemma_filter_no_dup(self.posg@, not_in_graph(*g));
                lemma_filter_no_dup(self.ospg@, not_in_graph(*g));
                lemma_filter_no_dup(self.gspo@, not_in_graph(*g));
                lemma_filter_no_dup(self.gpos@, not_in_graph(*g));
                lemma_filter_no_dup(self.gosp@, not_in_graph(*g));
                lemma_filter_no_dup(self.graphs@, not_term(*g));
                lemma_filter_mem(self.spog@, not_in_graph(*g));
                lemma_filter_mem(self.posg@, not_in_graph(*g));
                lemma_filter_mem(self.ospg@, not_in_graph(*g));
                lemma_filter_mem(self.gspo@, not_in_graph(*g));
                lemma_filter_mem(self.gpos@, not_in_graph(*g));
                lemma_filter_mem(self.gosp@, not_in_graph(*g));
                lemma_filter_mem(self.graphs@, not_term(*g));
            }
            self.spog = n1;
            self.posg = n2;
            self.ospg = n3;
            self.gspo = n4;
            self.gpos = n5;
            self.gosp = n6;
            self.graphs = g1;
        } else {
            proof {
                assert forall|i: int| 0 <= i < self.spog@.len() implies not_in_graph(*g)(
                    #[trigger] self.spog@[i],
                ) by {
                    assert(self.spog@.contains(self.spog@[i]));
                }
                lemma_filter_all_true(self.spog@, not_in_graph(*g));
                assert forall|i: int| 0 <= i < self.graphs@.len() implies not_term(*g)(
                    #[trigger] self.graphs@[i],
                ) by {
                    assert(self.graphs@.contains(self.graphs@[i]));
                }
                lemma_filter_all_true(self.graphs@, not_term(*g));
            }
        }
        Ok(present)
    }

    /// Removes a graph given by its decoded name.
    pub fn remove_named_graph(&mut self, graph_name: &Term) -> (r: Result<bool, StorageError>)
        requires
            old(self).wf(),
            graph_name.spec_is_named_or_blank(),
        ensures
            final(self).wf(),
            final(self).id2str == old(self).id2str,
            final(self).triples() == old(self).triples(),
            r is Ok,
            r matches Ok(b) ==> forall|e: EncodedTerm|
                #[trigger] encodes_model_term(*graph_name, e) ==> b == old(self).graph_names().contains(e) && final(self).named_quads() == old(self).named_quads().filter(not_in_graph(e)) && final(self).graph_names() == old(self).graph_names().filter(not_term(e)),
    {
        let e = encode_model_term(graph_name);
        proof {
            assert forall|e2: EncodedTerm| #[trigger]
                encodes_model_term(*graph_name, e2) implies e2 == e by {
                crate::model::lemma_encodes_model_term_functional(*graph_name, e2, e);
            }
        }
        self.remove_encoded_named_graph(&e)
    }

    /// Empties a graph without unregistering its name; the default graph
    /// may be cleared too.
    pub fn clear_graph(&mut self, graph_name: &Term) -> (r: Result<(), StorageError>)
        requires
            old(self).wf(),
            graph_name.spec_is_named_or_blank() || graph_name is DefaultGraph,
        ensures
            final(self).wf(),
            final(self).id2str == old(self).id2str,
            final(self).graph_names() == old(self).graph_names(),
            r is Ok,
            graph_name is DefaultGraph ==> final(self).triples() == Seq::<EncodedQuad>::empty()
                && final(self).named_quads() == old(self).named_quads(),
            !(graph_name is DefaultGraph) ==> final(self).triples() == old(self).triples()
                && forall|e: EncodedTerm|
                #[trigger] encodes_model_term(*graph_name, e) ==> final(self).named_quads() == old(self).named_quads().filter(not_in_graph(e)),
    {
        let e = encode_model_term(graph_name);
        proof {
            assert forall|e2: EncodedTerm| #[trigger]
                encodes_model_term(*graph_name, e2) implies e2 == e by {
                crate::model::lemma_encodes_model_term_functional(*graph_name, e2, e);
            }
            lemma_encodes_model_term_wf(*graph_name, e);
        }
        if e.is_default_graph() {
            self.dspo = Vec::new();
            self.dpos = Vec::new();
            self.dosp = Vec::new();
        } else {
            let n1 = quads_without_graph(&self.spog, &e);
            let n2 = quads_without_graph(&self.posg, &e);
            let n3 = quads_without_graph(&self.ospg, &e);
            let n4 = quads_without_graph(&self.gspo, &e);
            let n5 = quads_without_graph(&self.gpos, &e);
            let n6 = quads_without_graph(&self.gosp, &e);
            proof {
                lemma_filter_no_dup(self.spog@, not_in_graph(e));
                lemma_filter_no_dup(self.posg@, not_in_graph(e));
                lemma_filter_no_dup(self.ospg@, not_in_graph(e));
                lemma_filter_no_dup(self.gspo@, not_in_graph(e));
                lemma_filter_no_dup(self.gpos@, not_in_graph(e));
                lemma_filter_no_dup(self.gosp@, not_in_graph(e));
                lemma_filter_mem(self.spog@, not_in_graph(e));
                lemma_filter_mem(self.posg@, not_in_graph(e));
                lemma_filter_mem(self.ospg@, not_in_graph(e));
                lemma_filter_mem(self.gspo@, not_in_graph(e));
                lemma_filter_mem(self.gpos@, not_in_graph(e));
                lemma_filter_mem(self.gosp@, not_in_graph(e));
            }
            self.spog = n1;
            self.posg = n2;
            self.ospg = n3;
            self.gspo = n4;
            self.gpos = n5;
            self.gosp = n6;
        }
        Ok(())
    }

    /// Empties every named graph; names stay registered.
    pub fn clear_all_named_graphs(&mut self) -> (r: Result<(), StorageError>)
        requires
            old(self).wf(),
        ensures
            final(self).wf(),
            final(self).id2str == old(self).id2str,
            final(self).triples() == old(self).triples(),
            final(self).graph_names() == old(self).graph_names(),
            final(self).named_quads() == Seq::<EncodedQuad>::empty(),
            r is Ok,
    {
        self.spog = Vec::new();
        self.posg = Vec::new();
        self.ospg = Vec::new();
        self.gspo = Vec::new();
        self.gpos = Vec::new();
        self.gosp = Vec::new();
        Ok(())
    }

    /// Empties every graph, the default one included; names stay.
    pub fn clear_all_graphs(&mut self) -> (r: Result<(), StorageError>)
        requires
            old(self).wf(),
        ensures
            final(self).wf(),
            final(self).id2str == old(self).id2str,
            final(self).graph_names() == old(self).graph_names(),
            final(self).triples() == Seq::<EncodedQuad>::empty(),
            final(self).named_quads() == Seq::<EncodedQuad>::empty(),
            r is Ok,
    {
        self.dspo = Vec::new();
        self.dpos = Vec::new();
        self.dosp = Vec::new();
        self.spog = Vec::new();
        self.posg = Vec::new();
        self.ospg = Vec::new();
        self.gspo = Vec::new();
        self.gpos = Vec::new();
        self.gosp = Vec::new();
        Ok(())
    }

    /// Removes every named graph, quads and names both; default-graph
    /// triples stay.
    pub fn remove_all_named_graphs(&mut self) -> (r: Result<(), StorageError>)
        requires
            old(self).wf(),
        ensures
            final(self).wf(),
            final(self).id2str == old(self).id2str,
            final(self).triples() == old(self).triples(),
            final(self).named_quads() == Seq::<EncodedQuad>::empty(),
            final(self).graph_names() == Seq::<EncodedTerm>::empty(),
            r is Ok,
    {
        self.spog = Vec::new();
        self.posg = Vec::new();
        self.ospg = Vec::new();
        self.gspo = Vec::new();
        self.gpos = Vec::new();
        self.gosp = Vec::new();
        self.graphs = Vec::new();
        Ok(())
    }

    /// Removes everything: all quads and all graph names. The dictionary
    /// is append-only and keeps its strings.
    pub fn clear(&mut self) -> (r: Result<(), StorageError>)
        requires
            old(self).wf(),
        ensures
            final(self).wf(),
            final(self).id2str == old(self).id2str,
            final(self).triples() == Seq::<EncodedQuad>::empty(),
            final(self).named_quads() == Seq::<EncodedQuad>::empty(),
            final(self).graph_names() == Seq::<EncodedTerm>::empty(),
            r is Ok,
    {
        self.dspo = Vec::new();
        self.dpos = Vec::new();
        self.dosp = Vec::new();
        self.spog = Vec::new();
        self.posg = Vec::new();
        self.ospg = Vec::new();
        self.gspo = Vec::new();
        self.gpos = Vec::new();
        self.gosp = Vec::new();
        self.graphs = Vec::new();
        Ok(())
    }
}

/// A pattern as a spec value: `None` positions are wildcards.
pub open spec fn copy_opt(x: Option<&EncodedTerm>) -> Option<EncodedTerm> {
    match x {
        Some(t) => Some(*t),
        None => None,
    }
}

/// The quads admitted by a bound/unbound pattern over all four positions.
pub open spec fn match_pred(
    s: Option<EncodedTerm>,
    p: Option<EncodedTerm>,
    o: Option<EncodedTerm>,
    g: Option<EncodedTerm>,
) -> spec_fn(EncodedQuad) -> bool {
    |q: EncodedQuad|
        (s matches Some(t) ==> q.subject == t) && (p matches Some(t) ==> q.predicate == t) && (o
            matches Some(t) ==> q.object == t) && (g matches Some(t) ==> q.graph_name == t)
}

/// The quads of `v` matching the pattern.
fn quads_matching(
    v: &Vec<EncodedQuad>,
    s: Option<&EncodedTerm>,
    p: Option<&EncodedTerm>,
    o: Option<&EncodedTerm>,
    g: Option<&EncodedTerm>,
) -> (r: Vec<EncodedQuad>)
    ensures
        r@ == v@.filter(match_pred(copy_opt(s), copy_opt(p), copy_opt(o), copy_opt(g))),
{
    let ghost pred = match_pred(copy_opt(s), copy_opt(p), copy_opt(o), copy_opt(g));
    let n = v.len();
    let mut out: Vec<EncodedQuad> = Vec::new();
    let mut i: usize = 0;
    proof {
        reveal(Seq::filter);
        assert(v@.take(0).filter(pred) =~= Seq::<EncodedQuad>::empty());
    }
    while i < n
        invariant
            n == v@.len(),
            i <= n,
            pred == match_pred(copy_opt(s), copy_opt(p), copy_opt(o), copy_opt(g)),
            out@ == v@.take(i as int).filter(pred),
        decreases n - i,
    {
        proof {
            reveal(Seq::filter);
            assert(v@.take(i + 1).drop_last() =~= v@.take(i as int));
            assert(v@.take(i + 1).last() == v@[i as int]);
        }
        let q = v[i];
        let s_ok = match s {
            Some(t) => q.subject == *t,
            None => true,
        };
        let p_ok = match p {
            Some(t) => q.predicate == *t,
            None => true,
        };
        let o_ok = match o {
            Some(t) => q.object == *t,
            None => true,
        };
        let g_ok = match g {
            Some(t) => q.graph_name == *t,
            None => true,
        };
        if s_ok && p_ok && o_ok && g_ok {
            out.push(q);
        }
        i = i + 1;
    }
    proof {
        assert(v@.take(n as int) =~= v@);
    }
    out
}

proof fn lemma_concat_no_dup(a: Seq<EncodedQuad>, b: Seq<EncodedQuad>)
    requires
        a.no_duplicates(),
        b.no_duplicates(),
        forall|x: EncodedQuad| !(#[trigger] a.contains(x) && b.contains(x)),
    ensures
        (a + b).no_duplicates(),
{
    let t = a + b;
    assert forall|i: int, j: int| 0 <= i < j < t.len() implies t[i] != t[j] by {
        if i < a.len() && j >= a.len() {
            assert(t[i] == a[i]);
            assert(t[j] == b[j - a.len()]);
            assert(a.contains(a[i]));
            assert(b.contains(b[j - a.len()]));
        }
    }
}

/// A decoded scan over one index: the quads a prefix scan of that index
/// yields, decoded, handed out one at a time.
pub struct DecodingQuadIterator {
    pub terms: Vec<EncodedQuad>,
    pub encoding: QuadEncoding,
    pub pos: usize,
}

impl DecodingQuadIterator {
    pub open spec fn wf(&self) -> bool {
        self.pos <= self.terms@.len()
    }

    /// The quads not yet handed out.
    pub open spec fn remaining(&self) -> Seq<EncodedQuad> {
        self.terms@.skip(self.pos as int)
    }

    fn new(terms: Vec<EncodedQuad>, encoding: QuadEncoding) -> (r: DecodingQuadIterator)
        ensures
            r.wf(),
            r.remaining() == terms@,
            r.encoding == encoding,
    {
        let r = DecodingQuadIterator { terms, encoding, pos: 0 };
        proof {
            assert(r.remaining() =~= r.terms@);
        }
        r
    }

    /// The next quad of the scan, or `None` at its end.
    pub fn next(&mut self) -> (r: Option<Result<EncodedQuad, StorageError>>)
        requires
            old(self).wf(),
        ensures
            final(self).wf(),
            old(self).remaining().len() == 0 ==> r is None && final(self).remaining() == old(self).remaining(),
            old(self).remaining().len() > 0 ==> (r matches Some(q) && q matches Ok(q2) && q2
                == old(self).remaining()[0] && final(self).remaining() == old(self).remaining().drop_first()),
    {
        if self.pos < self.terms.len() {
            let q = self.terms[self.pos];
            self.pos = self.pos + 1;
            proof {
                assert(self.terms@.skip(self.pos as int) =~= self.terms@.skip(
                    self.pos - 1,
                ).drop_first());
            }
            Some(Ok(q))
        } else {
            None
        }
    }
}

/// The chain of at most two decoded scans: the union dispatcher glues a
/// default-graph scan to a named-graph scan.
pub struct ChainedDecodingQuadIterator {
    pub first: DecodingQuadIterator,
    pub second: Option<DecodingQuadIterator>,
}

impl ChainedDecodingQuadIterator {
    pub open spec fn wf(&self) -> bool {
        self.first.wf() && (self.second matches Some(s) ==> s.wf())
    }

    /// The quads not yet handed out, first scan first.
    pub open spec fn remaining(&self) -> Seq<EncodedQuad> {
        self.first.remaining() + (match self.second {
            Some(s) => s.remaining(),
            None => Seq::empty(),
        })
    }

    pub fn new(first: DecodingQuadIterator) -> (r: ChainedDecodingQuadIterator)
        requires
            first.wf(),
        ensures
            r.wf(),
            r.remaining() == first.remaining(),
    {
        let r = ChainedDecodingQuadIterator { first, second: None };
        proof {
            assert(r.remaining() =~= r.first.remaining());
        }
        r
    }

    pub fn pair(first: DecodingQuadIterator, second: DecodingQuadIterator) -> (r:
        ChainedDecodingQuadIterator)
        requires
            first.wf(),
            second.wf(),
        ensures
            r.wf(),
            r.remaining() == first.remaining() + second.remaining(),
    {
        ChainedDecodingQuadIterator { first, second: Some(second) }
    }

    /// The next quad, taken from the first scan while it lasts.
    pub fn next(&mut self) -> (r: Option<Result<EncodedQuad, StorageError>>)
        requires
            old(self).wf(),
        ensures
            final(self).wf(),
            old(self).remaining().len() == 0 ==> r is None && final(self).remaining() == old(self).remaining(),
            old(self).remaining().len() > 0 ==> (r matches Some(q) && q matches Ok(q2) && q2
                == old(self).remaining()[0] && final(self).remaining() == old(self).remaining().drop_first()),
    {
        let ghost old_rem = old(self).remaining();
        if self.first.pos < self.first.terms.len() {
            let r = self.first.next();
            proof {
                if old_rem.len() > 0 {
                    assert(self.remaining() =~= old_rem.drop_first());
                }
            }
            r
        } else {
            proof {
                assert(self.first.remaining() =~= Seq::<EncodedQuad>::empty());
            }
            match &mut self.second {
                Some(s) => {
                    let r = s.next();
                    proof {
                        if old_rem.len() > 0 {
                            assert(self.remaining() =~= old_rem.drop_first());
                        } else {
                            assert(self.remaining() =~= old_rem);
                        }
                    }
                    r
                },
                None => None,
            }
        }
    }
}

/// A scan over the registered graph names.
pub struct DecodingGraphIterator {
    pub terms: Vec<EncodedTerm>,
}

impl DecodingGraphIterator {
    /// The names not yet handed out; they leave from the back.
    pub open spec fn remaining(&self) -> Seq<EncodedTerm> {
        self.terms@
    }

    /// The next graph name, or `None` at the end.
    pub fn next(&mut self) -> (r: Option<Result<EncodedTerm, StorageError>>)
        ensures
            old(self).remaining().len() == 0 ==> r is None && final(self).remaining() == old(self).remaining(),
            old(self).remaining().len() > 0 ==> (r matches Some(q) && q matches Ok(t) && t
                == old(self).remaining().last() && final(self).remaining() == old(self).remaining().drop_last()),
    {
        match self.terms.pop() {
            Some(t) => Some(Ok(t)),
            None => None,
        }
    }
}

/// Copies a quad column.
fn copy_quads(v: &Vec<EncodedQuad>) -> (r: Vec<EncodedQuad>)
    ensures
        r@ == v@,
{
    let n = v.len();
    let mut out: Vec<EncodedQuad> = Vec::new();
    let mut i: usize = 0;
    while i < n
        invariant
            n == v@.len(),
            i <= n,
            out@ == v@.take(i as int),
        decreases n - i,
    {
        out.push(v[i]);
        proof {
            assert(out@ =~= v@.take(i + 1));
        }
        i = i + 1;
    }
    proof {
        assert(v@.take(n as int) =~= v@);
    }
    out
}

/// Copies the graph-name column.
fn copy_terms(v: &Vec<EncodedTerm>) -> (r: Vec<EncodedTerm>)
    ensures
        r@ == v@,
{
    let n = v.len();
    let mut out: Vec<EncodedTerm> = Vec::new();
    let mut i: usize = 0;
    while i < n
        invariant
            n == v@.len(),
            i <= n,
            out@ == v@.take(i as int),
        decreases n - i,
    {
        out.push(v[i]);
        proof {
            assert(out@ =~= v@.take(i + 1));
        }
        i = i + 1;
    }
    proof {
        assert(v@.take(n as int) =~= v@);
    }
    out
}

impl Storage {
    /// A deep copy: the snapshot a reader holds.
    pub fn duplicate(&self) -> (r: Storage)
        requires
            self.wf(),
        ensures
            r.wf(),
            r.dspo@ == self.dspo@,
            r.spog@ == self.spog@,
            r.graphs@ == self.graphs@,
            r.id2str.entries@ == self.id2str.entries@,
            r.id2str@ == self.id2str@,
            r.version == self.version,
    {
        let mut entries: Vec<(StrHash, String)> = Vec::new();
        let n = self.id2str.entries.len();
        let mut i: usize = 0;
        while i < n
            invariant
                n == self.id2str.entries@.len(),
                i <= n,
                entries@ == self.id2str.entries@.take(i as int),
            decreases n - i,
        {
            let e = (self.id2str.entries[i].0, self.id2str.entries[i].1.clone());
            entries.push(e);
            proof {
                assert(entries@ =~= self.id2str.entries@.take(i + 1));
            }
            i = i + 1;
        }
        proof {
            assert(self.id2str.entries@.take(n as int) =~= self.id2str.entries@);
        }
        Storage {
            dspo: copy_quads(&self.dspo),
            dpos: copy_quads(&self.dpos),
            dosp: copy_quads(&self.dosp),
            spog: copy_quads(&self.spog),
            posg: copy_quads(&self.posg),
            ospg: copy_quads(&self.ospg),
            gspo: copy_quads(&self.gspo),
            gpos: copy_quads(&self.gpos),
            gosp: copy_quads(&self.gosp),
            graphs: copy_terms(&self.graphs),
            id2str: Dictionary { entries },
            version: self.version,
        }
    }

    /// A point-in-time snapshot; later writers do not perturb it.
    pub fn snapshot(&self) -> (r: StorageReader)
        requires
            self.wf(),
        ensures
            r.storage.wf(),
            r.storage.triples() == self.triples(),
            r.storage.named_quads() == self.named_quads(),
            r.storage.graph_names() == self.graph_names(),
            r.storage.id2str@ == self.id2str@,
    {
        StorageReader { storage: self.duplicate() }
    }

    /// Begins a transaction: the writer works on its own copy, and
    /// nothing is visible until `commit` hands the new state back.
    pub fn start_transaction(&self) -> (r: StorageWriter)
        requires
            self.wf(),
        ensures
            r.storage.wf(),
            r.storage.triples() == self.triples(),
            r.storage.named_quads() == self.named_quads(),
            r.storage.graph_names() == self.graph_names(),
            r.storage.id2str@ == self.id2str@,
    {
        StorageWriter { storage: self.duplicate() }
    }
}

/// A point-in-time view over all column families.
pub struct StorageReader {
    pub storage: Storage,
}

impl StorageReader {
    pub fn new(storage: Storage) -> (r: StorageReader)
        ensures
            r.storage == storage,
    {
        StorageReader { storage }
    }

    /// The number of stored quads: default-graph triples plus
    /// named-graph quads; the other permutations mirror these two.
    pub fn len(&self) -> (r: Result<usize, StorageError>)
        requires
            self.storage.wf(),
        ensures
            self.storage.triples().len() + self.storage.named_quads().len() <= usize::MAX
                ==> (r matches Ok(n) && n == self.storage.triples().len()
                + self.storage.named_quads().len()),
            self.storage.triples().len() + self.storage.named_quads().len() > usize::MAX
                ==> r is Err,
    {
        match self.storage.dspo.len().checked_add(self.storage.spog.len()) {
            Some(n) => Ok(n),
            None => Err(StorageError::Corruption("quad count overflows".to_owned())),
        }
    }

    /// Whether the store holds no quad at all.
    pub fn is_empty(&self) -> (r: Result<bool, StorageError>)
        requires
            self.storage.wf(),
        ensures
            r matches Ok(b) && b == (self.storage.triples().len() == 0
                && self.storage.named_quads().len() == 0),
    {
        Ok(self.storage.dspo.len() == 0 && self.storage.spog.len() == 0)
    }

    /// Whether the quad is stored; one permutation suffices because the
    /// indexes agree.
    pub fn contains(&self, quad: &EncodedQuad) -> (r: Result<bool, StorageError>)
        requires
            self.storage.wf(),
        ensures
            quad.graph_name is DefaultGraph ==> (r matches Ok(b) && b
                == self.storage.triples().contains(*quad)),
            !(quad.graph_name is DefaultGraph) ==> (r matches Ok(b) && b
                == self.storage.named_quads().contains(*quad)),
    {
        if quad.graph_name.is_default_graph() {
            Ok(contains_quad(&self.storage.dspo, quad))
        } else {
            Ok(contains_quad(&self.storage.spog, quad))
        }
    }

    /// Selects the tightest-prefix default-graph index for the bound
    /// positions and scans it under the full pattern.
    fn default_graph_scan(
        &self,
        subject: Option<&EncodedTerm>,
        predicate: Option<&EncodedTerm>,
        object: Option<&EncodedTerm>,
    ) -> (r: DecodingQuadIterator)
        requires
            self.storage.wf(),
        ensures
            r.wf(),
            r.remaining().no_duplicates(),
            forall|q: EncodedQuad|
                #[trigger] r.remaining().contains(q) <==> self.storage.triples().contains(q)
                    && match_pred(
                    copy_opt(subject),
                    copy_opt(predicate),
                    copy_opt(object),
                    None,
                )(q),
            forall|q: EncodedQuad| r.remaining().contains(q) ==> q.graph_name is DefaultGraph,
    {
        let ghost pred = match_pred(copy_opt(subject), copy_opt(predicate), copy_opt(object), None);
        let (v, enc) = if subject.is_some() && predicate.is_some() {
            (quads_matching(&self.storage.dspo, subject, predicate, object, None), QuadEncoding::Dspo)
        } else if subject.is_some() && object.is_some() {
            (quads_matching(&self.storage.dosp, subject, predicate, object, None), QuadEncoding::Dosp)
        } else if subject.is_some() {
            (quads_matching(&self.storage.dspo, subject, predicate, object, None), QuadEncoding::Dspo)
        } else if predicate.is_some() {
            (quads_matching(&self.storage.dpos, subject, predicate, object, None), QuadEncoding::Dpos)
        } else if object.is_some() {
            (quads_matching(&self.storage.dosp, subject, predicate, object, None), QuadEncoding::Dosp)
        } else {
            (quads_matching(&self.storage.dspo, subject, predicate, object, None), QuadEncoding::Dspo)
        };
        proof {
            lemma_filter_mem(self.storage.dspo@, pred);
            lemma_filter_mem(self.storage.dpos@, pred);
            lemma_filter_mem(self.storage.dosp@, pred);
            lemma_filter_no_dup(self.storage.dspo@, pred);
            lemma_filter_no_dup(self.storage.dpos@, pred);
            lemma_filter_no_dup(self.storage.dosp@, pred);
        }
        DecodingQuadIterator::new(v, enc)
    }

    /// Selects the tightest-prefix named-graph index: graph-first when
    /// the graph is bound, subject-, predicate- or object-first
    /// otherwise.
    fn named_graph_scan(
        &self,
        subject: Option<&EncodedTerm>,
        predicate: Option<&EncodedTerm>,
        object: Option<&EncodedTerm>,
        graph_name: Option<&EncodedTerm>,
    ) -> (r: DecodingQuadIterator)
        requires
            self.storage.wf(),
        ensures
            r.wf(),
            r.remaining().no_duplicates(),
            forall|q: EncodedQuad|
                #[trigger] r.remaining().contains(q) <==> self.storage.named_quads().contains(q)
                    && match_pred(
                    copy_opt(subject),
                    copy_opt(predicate),
                    copy_opt(object),
                    copy_opt(graph_name),
                )(q),
            forall|q: EncodedQuad| r.remaining().contains(q) ==> !(q.graph_name is DefaultGraph),
    {
        let ghost pred = match_pred(
            copy_opt(subject),
            copy_opt(predicate),
            copy_opt(object),
            copy_opt(graph_name),
        );
        let (v, enc) = if graph_name.is_some() {
            if subject.is_some() && predicate.is_some() {
                (quads_matching(&self.storage.gspo, subject, predicate, object, graph_name), QuadEncoding::Gspo)
            } else if subject.is_some() && object.is_some() {
                (quads_matching(&self.storage.gosp, subject, predicate, object, graph_name), QuadEncoding::Gosp)
            } else if subject.is_some() {
                (quads_matching(&self.storage.gspo, subject, predicate, object, graph_name), QuadEncoding::Gspo)
            } else if predicate.is_some() {
                (quads_matching(&self.storage.gpos, subject, predicate, object, graph_name), QuadEncoding::Gpos)
            } else if object.is_some() {
                (quads_matching(&self.storage.gosp, subject, predicate, object, graph_name), QuadEncoding::Gosp)
            } else {
                (quads_matching(&self.storage.gspo, subject, predicate, object, graph_name), QuadEncoding::Gspo)
            }
        } else {
            if subject.is_some() && predicate.is_some() {
                (quads_matching(&self.storage.spog, subject, predicate, object, graph_name), QuadEncoding::Spog)
            } else if subject.is_some() && object.is_some() {
                (quads_matching(&self.storage.ospg, subject, predicate, object, graph_name), QuadEncoding::Ospg)
            } else if subject.is_some() {
                (quads_matching(&self.storage.spog, subject, predicate, object, graph_name), QuadEncoding::Spog)
            } else if predicate.is_some() {
                (quads_matching(&self.storage.posg, subject, predicate, object, graph_name), QuadEncoding::Posg)
            } else if object.is_some() {
                (quads_matching(&self.storage.ospg, subject, predicate, object, graph_name), QuadEncoding::Ospg)
            } else {
                (quads_matching(&self.storage.spog, subject, predicate, object, graph_name), QuadEncoding::Spog)
            }
        };
        proof {
            lemma_filter_mem(self.storage.spog@, pred);
            lemma_filter_mem(self.storage.posg@, pred);
            lemma_filter_mem(self.storage.ospg@, pred);
            lemma_filter_mem(self.storage.gspo@, pred);
            lemma_filter_mem(self.storage.gpos@, pred);
            lemma_filter_mem(self.storage.gosp@, pred);
            lemma_filter_no_dup(self.storage.spog@, pred);
            lemma_filter_no_dup(self.storage.posg@, pred);
            lemma_filter_no_dup(self.storage.ospg@, pred);
            lemma_filter_no_dup(self.storage.gspo@, pred);
            lemma_filter_no_dup(self.storage.gpos@, pred);
            lemma_filter_no_dup(self.storage.gosp@, pred);
        }
        DecodingQuadIterator::new(v, enc)
    }

    /// Dispatches a pattern: a bound graph scans one side only; an
    /// absent graph scans the default graph and then every named graph,
    /// without duplicate suppression across graphs.
    pub fn quads_for_pattern(
        &self,
        subject: Option<&EncodedTerm>,
        predicate: Option<&EncodedTerm>,
        object: Option<&EncodedTerm>,
        graph_name: Option<&EncodedTerm>,
    ) -> (r: ChainedDecodingQuadIterator)
        requires
            self.storage.wf(),
        ensures
            r.wf(),
            r.remaining().no_duplicates(),
            forall|q: EncodedQuad|
                #[trigger] r.remaining().contains(q) <==> (match copy_opt(graph_name) {
                    None => self.storage.triples().contains(q)
                        || self.storage.named_quads().contains(q),
                    Some(gt) => if gt is DefaultGraph {
                        self.storage.triples().contains(q)
                    } else {
                        self.storage.named_quads().contains(q) && q.graph_name == gt
                    },
                }) && match_pred(copy_opt(subject), copy_opt(predicate), copy_opt(object), None)(
                    q,
                ),
    {
        match graph_name {
            None => {
                let d = self.default_graph_scan(subject, predicate, object);
                let n = self.named_graph_scan(subject, predicate, object, None);
                proof {
                    assert forall|x: EncodedQuad|
                        !(#[trigger] d.remaining().contains(x) && n.remaining().contains(x)) by {}
                    lemma_concat_no_dup(d.remaining(), n.remaining());
                }
                ChainedDecodingQuadIterator::pair(d, n)
            },
            Some(g) => {
                if g.is_default_graph() {
                    let d = self.default_graph_scan(subject, predicate, object);
                    ChainedDecodingQuadIterator::new(d)
                } else {
                    let n = self.named_graph_scan(subject, predicate, object, Some(g));
                    ChainedDecodingQuadIterator::new(n)
                }
            },
        }
    }

    /// Scans the named graphs only, every graph at once.
    pub fn quads_in_named_graph(
        &self,
        subject: Option<&EncodedTerm>,
        predicate: Option<&EncodedTerm>,
        object: Option<&EncodedTerm>,
    ) -> (r: ChainedDecodingQuadIterator)
        requires
            self.storage.wf(),
        ensures
            r.wf(),
            r.remaining().no_duplicates(),
            forall|q: EncodedQuad|
                #[trigger] r.remaining().contains(q) <==> self.storage.named_quads().contains(q)
                    && match_pred(copy_opt(subject), copy_opt(predicate), copy_opt(object), None)(
                    q,
                ),
    {
        let n = self.named_graph_scan(subject, predicate, object, None);
        ChainedDecodingQuadIterator::new(n)
    }

    /// Scans everything: the default graph, then the named graphs.
    pub fn quads(&self) -> (r: ChainedDecodingQuadIterator)
        requires
            self.storage.wf(),
        ensures
            r.wf(),
            r.remaining().no_duplicates(),
            r.remaining().len() == self.storage.triples().len()
                + self.storage.named_quads().len(),
            forall|q: EncodedQuad|
                #[trigger] r.remaining().contains(q) <==> self.storage.triples().contains(q)
                    || self.storage.named_quads().contains(q),
    {
        let d = DecodingQuadIterator::new(copy_quads(&self.storage.dspo), QuadEncoding::Dspo);
        let n = DecodingQuadIterator::new(copy_quads(&self.storage.spog), QuadEncoding::Spog);
        proof {
            assert forall|x: EncodedQuad|
                !(#[trigger] d.remaining().contains(x) && n.remaining().contains(x)) by {}
            lemma_concat_no_dup(d.remaining(), n.remaining());
        }
        ChainedDecodingQuadIterator::pair(d, n)
    }

    /// Scans the registered graph names.
    pub fn named_graphs(&self) -> (r: DecodingGraphIterator)
        requires
            self.storage.wf(),
        ensures
            r.remaining() == self.storage.graph_names(),
    {
        DecodingGraphIterator { terms: copy_terms(&self.storage.graphs) }
    }

    /// Whether the graph name is registered.
    pub fn contains_named_graph(&self, graph_name: &EncodedTerm) -> (r: Result<
        bool,
        StorageError,
    >)
        requires
            self.storage.wf(),
        ensures
            r matches Ok(b) && b == self.storage.graph_names().contains(*graph_name),
    {
        Ok(contains_term(&self.storage.graphs, graph_name))
    }

    /// Resolves a hash reference through the dictionary.
    pub fn get_str(&self, key: &StrHash) -> (r: Result<Option<String>, StorageError>)
        requires
            self.storage.wf(),
        ensures
            r matches Ok(o) && (o matches Some(s) ==> self.storage.id2str@.contains_key(key.hash)
                && s@ == self.storage.id2str@[key.hash]) && (o is None
                ==> !self.storage.id2str@.contains_key(key.hash)),
    {
        Ok(self.storage.id2str.get(key))
    }

    /// Whether a hash reference resolves.
    pub fn contains_str(&self, key: &StrHash) -> (r: Result<bool, StorageError>)
        requires
            self.storage.wf(),
        ensures
            r matches Ok(b) && b == self.storage.id2str@.contains_key(key.hash),
    {
        Ok(self.storage.id2str.contains(key))
    }

    /// Validates that the storage invariants hold in the data; on a
    /// well-formed snapshot the format version always matches.
    pub fn validate(&self) -> (r: Result<(), StorageError>)
        requires
            self.storage.wf(),
        ensures
            r is Ok,
    {
        if crate::binary_encoder::is_supported_storage_version(self.storage.version) {
            Ok(())
        } else {
            Err(StorageError::Corruption("invalid storage version".to_owned()))
        }
    }
}

/// A transactional mutator over its own copy of the store: all
/// mutations become visible together when `commit` returns the new
/// state, or not at all when the writer is dropped.
pub struct StorageWriter {
    pub storage: Storage,
}

impl StorageWriter {
    /// A reader over the writer's uncommitted state.
    pub fn reader(&self) -> (r: StorageReader)
        requires
            self.storage.wf(),
        ensures
            r.storage.wf(),
            r.storage.triples() == self.storage.triples(),
            r.storage.named_quads() == self.storage.named_quads(),
            r.storage.graph_names() == self.storage.graph_names(),
            r.storage.id2str@ == self.storage.id2str@,
    {
        self.storage.snapshot()
    }

    /// Makes the buffered state durable by handing it to the caller.
    pub fn commit(self) -> (r: Storage)
        ensures
            r == self.storage,
    {
        self.storage
    }

    /// Buffers one insertion; the quad's new graph name is registered
    /// with it. It fails exactly on a dictionary hash collision between
    /// distinct strings, and even then leaves every index and the graph
    /// set untouched and adds at most dictionary entries that map a quad
    /// string's own hash to that string.
    #[verifier::rlimit(100)]
    pub fn insert(&mut self, quad: &Quad) -> (r: Result<bool, StorageError>)
        requires
            old(self).storage.wf(),
            quad.wf(),
        ensures
            final(self).storage.wf(),
            forall|h: u128|
                #[trigger] old(self).storage.id2str@.contains_key(h) ==> final(self).storage.id2str@.contains_key(h) && final(self).storage.id2str@[h] == old(self).storage.id2str@[h],
            forall|h: u128|
                #[trigger] final(self).storage.id2str@.contains_key(h) ==> old(self).storage.id2str@.contains_key(h) || (exists|s: Seq<char>|
                    #[trigger] quad_interns(*quad, s) && spec_str_hash(s) == h && final(self).storage.id2str@[h] == s),
            r is Err <==> quad_collision(old(self).storage.id2str@, *quad),
            r is Err ==> final(self).storage.triples() == old(self).storage.triples() && final(self).storage.named_quads() == old(self).storage.named_quads() && final(self).storage.graph_names() == old(self).storage.graph_names(),
            r matches Ok(b) ==> forall|e: EncodedQuad|
                #[trigger] encodes_model_quad(*quad, e) ==> (if quad.graph_name is DefaultGraph {
                    b == !old(self).storage.triples().contains(e)
                        && final(self).storage.named_quads() == old(self).storage.named_quads()
                        && final(self).storage.graph_names() == old(self).storage.graph_names()
                        && (if b {
                            final(self).storage.triples() == old(self).storage.triples().push(e)
                        } else {
                            final(self).storage.triples() == old(self).storage.triples()
                        })
                } else {
                    b == !old(self).storage.named_quads().contains(e)
                        && final(self).storage.triples() == old(self).storage.triples()
                        && (if b {
                            final(self).storage.named_quads() == old(self).storage.named_quads().push(e)
                                && (if old(self).storage.graph_names().contains(e.graph_name) {
                                    final(self).storage.graph_names() == old(self).storage.graph_names()
                                } else {
                                    final(self).storage.graph_names() == old(self).storage.graph_names().push(e.graph_name)
                                })
                        } else {
                            final(self).storage.named_quads() == old(self).storage.named_quads()
                                && final(self).storage.graph_names() == old(self).storage.graph_names()
                        })
                }),
    {
        self.storage.insert(quad)
    }

    /// Buffers the registration of a graph name. It fails exactly on a
    /// dictionary hash collision between the name's string and a
    /// differently valued entry, and even then leaves the graph set
    /// untouched.
    #[verifier::rlimit(100)]
    pub fn insert_named_graph(&mut self, graph_name: &Term) -> (r: Result<bool, StorageError>)
        requires
            old(self).storage.wf(),
            graph_name.spec_is_named_or_blank(),
        ensures
            final(self).storage.wf(),
            final(self).storage.triples() == old(self).storage.triples(),
            final(self).storage.named_quads() == old(self).storage.named_quads(),
            forall|h: u128|
                #[trigger] old(self).storage.id2str@.contains_key(h) ==> final(self).storage.id2str@.contains_key(h) && final(self).storage.id2str@[h] == old(self).storage.id2str@[h],
            forall|h: u128|
                #[trigger] final(self).storage.id2str@.contains_key(h) ==> old(self).storage.id2str@.contains_key(h) || (exists|s: Seq<char>|
                    #[trigger] term_interns(*graph_name, s) && spec_str_hash(s) == h && final(self).storage.id2str@[h] == s),
            r is Err <==> term_collision(old(self).storage.id2str@, *graph_name),
            r is Err ==> final(self).storage.graph_names() == old(self).storage.graph_names(),
            r matches Ok(b) ==> forall|e: EncodedTerm|
                #[trigger] encodes_model_term(*graph_name, e) ==> b == !old(self).storage.graph_names().contains(e) && (if b {
                    final(self).storage.graph_names() == old(self).storage.graph_names().push(e)
                } else {
                    final(self).storage.graph_names() == old(self).storage.graph_names()
                }),
    {
        self.storage.insert_named_graph(graph_name)
    }

    pub fn remove(&mut self, quad: &Quad) -> (r: Result<bool, StorageError>)
        requires
            old(self).storage.wf(),
            quad.wf(),
        ensures
            final(self).storage.wf(),
            final(self).storage.graph_names() == old(self).storage.graph_names(),
            final(self).storage.id2str == old(self).storage.id2str,
            r is Ok,
            r matches Ok(b) ==> forall|e: EncodedQuad|
                #[trigger] encodes_model_quad(*quad, e) ==> (if quad.graph_name is DefaultGraph {
                    b == old(self).storage.triples().contains(e)
                        && final(self).storage.triples() == old(self).storage.triples().filter(
                        not_quad(e),
                    ) && final(self).storage.named_quads() == old(self).storage.named_quads()
                } else {
                    b == old(self).storage.named_quads().contains(e)
                        && final(self).storage.named_quads() == old(self).storage.named_quads().filter(not_quad(e)) && final(self).storage.triples()
                        == old(self).storage.triples()
                }),
    {
        self.storage.remove(quad)
    }

    pub fn clear_graph(&mut self, graph_name: &Term) -> (r: Result<(), StorageError>)
        requires
            old(self).storage.wf(),
            graph_name.spec_is_named_or_blank() || graph_name is DefaultGraph,
        ensures
            final(self).storage.wf(),
            final(self).storage.graph_names() == old(self).storage.graph_names(),
            r is Ok,
            graph_name is DefaultGraph ==> final(self).storage.triples() == Seq::<
                EncodedQuad,
            >::empty() && final(self).storage.named_quads() == old(self).storage.named_quads(),
            !(graph_name is DefaultGraph) ==> final(self).storage.triples() == old(self).storage.triples() && forall|e: EncodedTerm|
                #[trigger] encodes_model_term(*graph_name, e) ==> final(self).storage.named_quads()
                    == old(self).storage.named_quads().filter(not_in_graph(e)),
    {
        self.storage.clear_graph(graph_name)
    }

    pub fn clear_all_named_graphs(&mut self) -> (r: Result<(), StorageError>)
        requires
            old(self).storage.wf(),
        ensures
            final(self).storage.wf(),
            final(self).storage.triples() == old(self).storage.triples(),
            final(self).storage.graph_names() == old(self).storage.graph_names(),
            final(self).storage.named_quads() == Seq::<EncodedQuad>::empty(),
            r is Ok,
    {
        self.storage.clear_all_named_graphs()
    }

    pub fn clear_all_graphs(&mut self) -> (r: Result<(), StorageError>)
        requires
            old(self).storage.wf(),
        ensures
            final(self).storage.wf(),
            final(self).storage.graph_names() == old(self).storage.graph_names(),
            final(self).storage.triples() == Seq::<EncodedQuad>::empty(),
            final(self).storage.named_quads() == Seq::<EncodedQuad>::empty(),
            r is Ok,
    {
        self.storage.clear_all_graphs()
    }

    pub fn remove_named_graph(&mut self, graph_name: &Term) -> (r: Result<bool, StorageError>)
        requires
            old(self).storage.wf(),
            graph_name.spec_is_named_or_blank(),
        ensures
            final(self).storage.wf(),
            final(self).storage.triples() == old(self).storage.triples(),
            final(self).storage.id2str == old(self).storage.id2str,
            r is Ok,
            r matches Ok(b) ==> forall|e: EncodedTerm|
                #[trigger] encodes_model_term(*graph_name, e) ==> b == old(self).storage.graph_names().contains(e) && final(self).storage.named_quads() == old(self).storage.named_quads().filter(not_in_graph(e)) && final(self).storage.graph_names() == old(self).storage.graph_names().filter(not_term(e)),
    {
        self.storage.remove_named_graph(graph_name)
    }

    pub fn remove_all_named_graphs(&mut self) -> (r: Result<(), StorageError>)
        requires
            old(self).storage.wf(),
        ensures
            final(self).storage.wf(),
            final(self).storage.triples() == old(self).storage.triples(),
            final(self).storage.named_quads() == Seq::<EncodedQuad>::empty(),
            final(self).storage.graph_names() == Seq::<EncodedTerm>::empty(),
            r is Ok,
    {
        self.storage.remove_all_named_graphs()
    }

    pub fn clear(&mut self) -> (r: Result<(), StorageError>)
        requires
            old(self).storage.wf(),
        ensures
            final(self).storage.wf(),
            final(self).storage.triples() == Seq::<EncodedQuad>::empty(),
            final(self).storage.named_quads() == Seq::<EncodedQuad>::empty(),
            final(self).storage.graph_names() == Seq::<EncodedTerm>::empty(),
            r is Ok,
    {
        self.storage.clear()
    }
}


/// Index consistency: a quad stored in any one permuted index is stored
/// in every index of its group, and all the group's counts agree.
pub proof fn lemma_index_consistency(s: Storage, q: EncodedQuad)
    requires
        s.wf(),
    ensures
        s.dspo@.contains(q) <==> s.dpos@.contains(q),
        s.dspo@.contains(q) <==> s.dosp@.contains(q),
        s.spog@.contains(q) <==> s.posg@.contains(q),
        s.spog@.contains(q) <==> s.ospg@.contains(q),
        s.spog@.contains(q) <==> s.gspo@.contains(q),
        s.spog@.contains(q) <==> s.gpos@.contains(q),
        s.spog@.contains(q) <==> s.gosp@.contains(q),
        s.dspo@.len() == s.dpos@.len() && s.dspo@.len() == s.dosp@.len(),
        s.spog@.len() == s.posg@.len() && s.spog@.len() == s.ospg@.len() && s.spog@.len()
            == s.gspo@.len() && s.spog@.len() == s.gpos@.len() && s.spog@.len() == s.gosp@.len(),
{
    lemma_same_members_same_len(s.dspo@, s.dpos@);
    lemma_same_members_same_len(s.dspo@, s.dosp@);
    lemma_same_members_same_len(s.spog@, s.posg@);
    lemma_same_members_same_len(s.spog@, s.ospg@);
    lemma_same_members_same_len(s.spog@, s.gspo@);
    lemma_same_members_same_len(s.spog@, s.gpos@);
    lemma_same_members_same_len(s.spog@, s.gosp@);
}

proof fn lemma_same_members_same_len(a: Seq<EncodedQuad>, b: Seq<EncodedQuad>)
    requires
        a.no_duplicates(),
        b.no_duplicates(),
        forall|q: EncodedQuad| a.contains(q) <==> b.contains(q),
    ensures
        a.len() == b.len(),
{
    a.unique_seq_to_set();
    b.unique_seq_to_set();
    assert(a.to_set() =~= b.to_set());
}

/// Dictionary completeness: every hash referenced by any stored quad or
/// registered graph name has an entry in `id2str`.
pub proof fn lemma_dictionary_completeness(s: Storage, h: u128)
    requires
        s.wf(),
        exists|q: EncodedQuad|
            (#[trigger] q.hash_refs().contains(h)) && (s.triples().contains(q)
                || s.named_quads().contains(q)),
    ensures
        s.id2str@.contains_key(h),
{
    let q = choose|q: EncodedQuad|
        (#[trigger] q.hash_refs().contains(h)) && (s.triples().contains(q)
            || s.named_quads().contains(q));
    assert(q.hash_refs() <= s.id2str@.dom());
}

/// Union semantics, first half: a quad standing in two named graphs is
/// handed out twice by a union scan, once under each graph name.
pub proof fn lemma_union_scan_counts_twice(
    s: Storage,
    scan: Seq<EncodedQuad>,
    q1: EncodedQuad,
    q2: EncodedQuad,
)
    requires
        s.wf(),
        scan.no_duplicates(),
        forall|q: EncodedQuad|
            #[trigger] scan.contains(q) <==> s.triples().contains(q) || s.named_quads().contains(
                q,
            ),
        s.named_quads().contains(q1),
        s.named_quads().contains(q2),
        q1.subject == q2.subject,
        q1.predicate == q2.predicate,
        q1.object == q2.object,
        q1.graph_name != q2.graph_name,
    ensures
        scan.contains(q1),
        scan.contains(q2),
        scan.len() >= 2,
{
    let i = scan.lemma_contains_to_index(q1);
    let j = scan.lemma_contains_to_index(q2);
    assert(i != j);
}

/// Union semantics, second half: after the quad leaves one of the two
/// graphs, a union scan of the new state hands it out exactly once.
pub proof fn lemma_union_scan_after_remove(
    s2: Storage,
    scan: Seq<EncodedQuad>,
    q1: EncodedQuad,
    q2: EncodedQuad,
)
    requires
        s2.wf(),
        scan.no_duplicates(),
        forall|q: EncodedQuad|
            #[trigger] scan.contains(q) <==> s2.triples().contains(q)
                || s2.named_quads().contains(q),
        !s2.named_quads().contains(q1),
        !(q1.graph_name is DefaultGraph),
        s2.named_quads().contains(q2),
    ensures
        !scan.contains(q1) || s2.triples().contains(q1),
        scan.contains(q2),
{
}

} // verus!
