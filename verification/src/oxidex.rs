//! The indexing and search engine: a registry of documents, an inverted
//! index from terms to per-document occurrence counts, and single-term
//! search ranked by a length-normalized TF-IDF score.
//!
//! The registry is a vector indexed by document id — ids are assigned
//! densely from zero and never reused, so a removed document leaves a
//! vacant slot. The inverted index is an association list from terms to
//! posting lists; a posting list is an association list from document ids
//! to occurrence counts. Both are kept canonical: no duplicate keys, no
//! empty posting list, no zero count, no posting for an unregistered
//! document.
//!
//! The engine is single-threaded by design: callers must serialize
//! mutations against each other and against readers.

use vstd::prelude::*;

use crate::document::DocumentEntry;
use crate::document::DocMetaData;
use crate::ranking::SearchResult;
use crate::ranking::among;
use crate::ranking::lists_doc;
use crate::ranking::coherent_hits;
use crate::ranking::rank_hits;
use crate::ranking::ranked_before;
use crate::ranking::same_query;
use crate::tokenizer::decoded_of;
use crate::tokenizer::occ;
use crate::tokenizer::tokenize;
use crate::tokenizer::tokens_of;

verus! {

/// The one failure kind: `add_document` could not obtain the document's
/// content or its metadata. The payload is a human-readable message.
#[derive(Debug)]
pub enum OxidexError {
    AddDocumentError(String),
}

/// One entry of a posting list: a document id and the number of times the
/// term occurs in that document.
#[derive(Clone, Copy)]
pub struct Posting {
    pub doc_id: usize,
    pub count: usize,
}

/// One entry of the inverted index: a term and its posting list.
pub struct TermEntry {
    pub term: String,
    pub postings: Vec<Posting>,
}

/// The engine: the document registry and the inverted index. The next id
/// to assign equals the registry vector's length.
pub struct Oxidex {
    documents: Vec<Option<DocumentEntry>>,
    inverted_index: Vec<TermEntry>,
}

/// Occurrence count of `id` in a posting list (first match; `0` if absent).
pub open spec fn ps_count(ps: Seq<Posting>, id: int) -> usize
    decreases ps.len(),
{
    if ps.len() == 0 {
        0
    } else if ps[0].doc_id == id {
        ps[0].count
    } else {
        ps_count(ps.skip(1), id)
    }
}

/// Whether a posting list holds an entry for `id`.
pub open spec fn ps_has(ps: Seq<Posting>, id: int) -> bool {
    exists|k: int| 0 <= k < ps.len() && ps[k].doc_id == id
}

/// The posting lists of a posting sequence have pairwise distinct ids.
pub open spec fn ps_distinct(ps: Seq<Posting>) -> bool {
    forall|k1: int, k2: int|
        0 <= k1 < k2 < ps.len() ==> (#[trigger] ps[k1]).doc_id != (#[trigger] ps[k2]).doc_id
}

/// The posting list of term `t` in the index (first match; empty if the
/// term is absent).
pub open spec fn idx_postings(s: Seq<TermEntry>, t: Seq<char>) -> Seq<Posting>
    decreases s.len(),
{
    if s.len() == 0 {
        Seq::empty()
    } else if s[0].term@ == t {
        s[0].postings@
    } else {
        idx_postings(s.skip(1), t)
    }
}

/// Whether the index holds an entry for term `t`.
pub open spec fn idx_has(s: Seq<TermEntry>, t: Seq<char>) -> bool {
    exists|i: int| 0 <= i < s.len() && s[i].term@ == t
}

/// Number of registered documents in a registry vector.
pub open spec fn count_some(docs: Seq<Option<DocumentEntry>>) -> nat
    decreases docs.len(),
{
    if docs.len() == 0 {
        0
    } else {
        count_some(docs.skip(1)) + if docs[0] is Some {
            1nat
        } else {
            0nat
        }
    }
}

/// A posting is well formed with respect to a registry: positive count,
/// registered document, count no larger than the document's token count.
pub open spec fn posting_ok(docs: Seq<Option<DocumentEntry>>, p: Posting) -> bool {
    &&& p.count >= 1
    &&& p.doc_id < docs.len()
    &&& docs[p.doc_id as int] matches Some(e) && p.count <= e.token_count
}

proof fn lemma_ps_count_first(ps: Seq<Posting>, id: int, k: int)
    requires
        0 <= k <= ps.len(),
        forall|m: int| 0 <= m < k ==> (#[trigger] ps[m]).doc_id != id,
        k < ps.len() ==> ps[k].doc_id == id,
    ensures
        k < ps.len() ==> ps_count(ps, id) == ps[k].count,
        k == ps.len() ==> ps_count(ps, id) == 0,
    decreases ps.len(),
{
    if ps.len() == 0 {
    } else if ps[0].doc_id == id {
        assert(k == 0);
    } else {
        lemma_ps_count_first(ps.skip(1), id, k - 1);
    }
}

proof fn lemma_ps_count_absent(ps: Seq<Posting>, id: int)
    requires
        !ps_has(ps, id),
    ensures
        ps_count(ps, id) == 0,
{
    assert(forall|m: int| 0 <= m < ps.len() ==> (#[trigger] ps[m]).doc_id != id);
    lemma_ps_count_first(ps, id, ps.len() as int);
}

proof fn lemma_ps_count_at(ps: Seq<Posting>, id: int, k: int)
    requires
        ps_distinct(ps),
        0 <= k < ps.len(),
        ps[k].doc_id == id,
    ensures
        ps_count(ps, id) == ps[k].count,
{
    assert(forall|m: int| 0 <= m < k ==> (#[trigger] ps[m]).doc_id != id);
    lemma_ps_count_first(ps, id, k);
}

proof fn lemma_ps_count_pos_has(ps: Seq<Posting>, id: int)
    requires
        ps_count(ps, id) > 0,
    ensures
        ps_has(ps, id),
    decreases ps.len(),
{
    if ps.len() == 0 {
    } else if ps[0].doc_id == id {
    } else {
        lemma_ps_count_pos_has(ps.skip(1), id);
        let k = choose|k: int| 0 <= k < ps.skip(1).len() && ps.skip(1)[k].doc_id == id;
        assert(ps[k + 1].doc_id == id);
    }
}

proof fn lemma_ps_count_push(ps: Seq<Posting>, p: Posting, j: int)
    ensures
        ps_has(ps.push(p), j) == (ps_has(ps, j) || p.doc_id == j),
        ps_count(ps.push(p), j) == if ps_has(ps, j) {
            ps_count(ps, j)
        } else if p.doc_id == j {
            p.count
        } else {
            0
        },
    decreases ps.len(),
{
    let pu = ps.push(p);
    if ps.len() == 0 {
        assert(pu.skip(1) =~= Seq::<Posting>::empty());
        assert(pu[0] == p);
        assert(!ps_has(ps, j));
        assert(ps_count(Seq::<Posting>::empty(), j) == 0);
        if p.doc_id == j {
            assert(ps_has(pu, j));
        } else {
            if ps_has(pu, j) {
                let k = choose|k: int| 0 <= k < pu.len() && pu[k].doc_id == j;
                assert(k == 0);
                assert(false);
            }
            assert(ps_count(pu, j) == ps_count(pu.skip(1), j));
        }
    } else {
        assert(pu.skip(1) =~= ps.skip(1).push(p));
        lemma_ps_count_push(ps.skip(1), p, j);
        assert(pu[0] == ps[0]);
        if ps[0].doc_id == j {
            assert(ps_has(ps, j));
        } else {
            assert(ps_count(pu, j) == ps_count(pu.skip(1), j));
            assert(ps_count(ps, j) == ps_count(ps.skip(1), j));
            assert(ps_has(ps, j) == ps_has(ps.skip(1), j)) by {
                if ps_has(ps.skip(1), j) {
                    let k = choose|k: int| 0 <= k < ps.skip(1).len() && ps.skip(1)[k].doc_id == j;
                    assert(ps[k + 1].doc_id == j);
                }
                if ps_has(ps, j) {
                    let k = choose|k: int| 0 <= k < ps.len() && ps[k].doc_id == j;
                    assert(k > 0);
                    assert(ps.skip(1)[k - 1].doc_id == j);
                }
            }
            assert(ps_has(pu, j) == (ps_has(ps, j) || p.doc_id == j)) by {
                if ps_has(pu, j) {
                    let k = choose|k: int| 0 <= k < pu.len() && pu[k].doc_id == j;
                    if k < ps.len() {
                        assert(ps[k].doc_id == j);
                    }
                }
                if ps_has(ps, j) {
                    let k = choose|k: int| 0 <= k < ps.len() && ps[k].doc_id == j;
                    assert(pu[k].doc_id == j);
                }
                if p.doc_id == j {
                    assert(pu[pu.len() - 1].doc_id == j);
                }
            }
        }
    }
}

proof fn lemma_idx_postings_first(s: Seq<TermEntry>, t: Seq<char>, i: int)
    requires
        0 <= i <= s.len(),
        forall|m: int| 0 <= m < i ==> (#[trigger] s[m]).term@ != t,
        i < s.len() ==> s[i].term@ == t,
    ensures
        i < s.len() ==> idx_postings(s, t) == s[i].postings@,
        i == s.len() ==> idx_postings(s, t) == Seq::<Posting>::empty(),
    decreases s.len(),
{
    if s.len() == 0 {
    } else if s[0].term@ == t {
        assert(i == 0);
    } else {
        lemma_idx_postings_first(s.skip(1), t, i - 1);
    }
}

proof fn lemma_idx_postings_absent(s: Seq<TermEntry>, t: Seq<char>)
    requires
        !idx_has(s, t),
    ensures
        idx_postings(s, t) == Seq::<Posting>::empty(),
{
    assert(forall|m: int| 0 <= m < s.len() ==> (#[trigger] s[m]).term@ != t);
    lemma_idx_postings_first(s, t, s.len() as int);
}

proof fn lemma_count_some_push(docs: Seq<Option<DocumentEntry>>, d: Option<DocumentEntry>)
    ensures
        count_some(docs.push(d)) == count_some(docs) + if d is Some {
            1nat
        } else {
            0nat
        },
    decreases docs.len(),
{
    if docs.len() == 0 {
        assert(docs.push(d).skip(1) =~= Seq::<Option<DocumentEntry>>::empty());
        assert(count_some(Seq::<Option<DocumentEntry>>::empty()) == 0);
        assert(docs.push(d)[0] == d);
        assert(count_some(docs.push(d)) == count_some(docs.push(d).skip(1)) + if docs.push(
            d,
        )[0] is Some {
            1nat
        } else {
            0nat
        });
    } else {
        assert(docs.push(d).skip(1) =~= docs.skip(1).push(d));
        lemma_count_some_push(docs.skip(1), d);
        assert(docs.push(d)[0] == docs[0]);
    }
}

proof fn lemma_count_some_update_none(docs: Seq<Option<DocumentEntry>>, i: int)
    requires
        0 <= i < docs.len(),
        docs[i] is Some,
    ensures
        count_some(docs.update(i, None)) == count_some(docs) - 1,
    decreases docs.len(),
{
    let upd = docs.update(i, None);
    if i == 0 {
        assert(upd.skip(1) =~= docs.skip(1));
        assert(upd[0] is None);
    } else {
        assert(upd.skip(1) =~= docs.skip(1).update(i - 1, None));
        lemma_count_some_update_none(docs.skip(1), i - 1);
        assert(upd[0] == docs[0]);
    }
}

impl Oxidex {
    /// The id the next successful `add_document` will assign.
    pub closed spec fn next_id_spec(self) -> int {
        self.documents@.len() as int
    }

    /// The registered document with the given id, if any.
    pub closed spec fn doc_spec(self, id: int) -> Option<DocumentEntry> {
        if 0 <= id < self.documents@.len() {
            self.documents@[id]
        } else {
            None
        }
    }

    /// Number of currently registered documents.
    pub closed spec fn num_docs_spec(self) -> nat {
        count_some(self.documents@)
    }

    /// Occurrence count of term `t` in document `id` (`0` if absent).
    pub closed spec fn tf_spec(self, t: Seq<char>, id: int) -> nat {
        ps_count(idx_postings(self.inverted_index@, t), id) as nat
    }

    /// Number of documents term `t` occurs in.
    pub closed spec fn df_spec(self, t: Seq<char>) -> nat {
        idx_postings(self.inverted_index@, t).len()
    }

    /// Whether the index holds an entry for term `t`. A term is present
    /// exactly while its posting list is non-empty: empty lists are pruned.
    pub closed spec fn has_term_spec(self, t: Seq<char>) -> bool {
        idx_has(self.inverted_index@, t)
    }

    /// Well-formedness: every registered document sits in the slot of its
    /// id; index terms are pairwise distinct; no posting list is empty; ids
    /// within a posting list are pairwise distinct; every posting has a
    /// positive count, refers to a registered document, and does not exceed
    /// that document's token count.
    pub closed spec fn wf(self) -> bool {
        let docs = self.documents@;
        let idx = self.inverted_index@;
        &&& forall|i: int|
            0 <= i < docs.len() ==> (#[trigger] docs[i] matches Some(e) ==> e.id == i)
        &&& forall|i: int, j: int|
            0 <= i < j < idx.len() ==> (#[trigger] idx[i]).term@ != (#[trigger] idx[j]).term@
        &&& forall|i: int| 0 <= i < idx.len() ==> (#[trigger] idx[i]).postings@.len() > 0
        &&& forall|i: int| 0 <= i < idx.len() ==> ps_distinct((#[trigger] idx[i]).postings@)
        &&& forall|i: int, k: int|
            0 <= i < idx.len() && 0 <= k < idx[i].postings@.len() ==> posting_ok(
                docs,
                #[trigger] idx[i].postings@[k],
            )
    }

    /// A fresh, empty engine: no documents, no terms, next id zero.
    pub fn new() -> (r: Oxidex)
        ensures
            r.wf(),
            r.next_id_spec() == 0,
            r.num_docs_spec() == 0,
            forall|id: int| r.doc_spec(id) is None,
            forall|t: Seq<char>, id: int| r.tf_spec(t, id) == 0,
            forall|t: Seq<char>| r.df_spec(t) == 0,
            forall|t: Seq<char>| !r.has_term_spec(t),
    {
        Oxidex { documents: Vec::new(), inverted_index: Vec::new() }
    }

    /// Read-only lookup of a document by id; no side effects.
    pub fn get_doc(&self, doc_id: usize) -> (r: Option<&DocumentEntry>)
        ensures
            match r {
                Some(d) => self.doc_spec(doc_id as int) == Some(*d),
                None => self.doc_spec(doc_id as int) is None,
            },
    {
        if doc_id < self.documents.len() {
            match &self.documents[doc_id] {
                Some(d) => Some(d),
                None => None,
            }
        } else {
            None
        }
    }

    /// Index of the first entry for term `t`, if the term is indexed.
    fn find_term_idx(&self, t: &String) -> (r: Option<usize>)
        ensures
            match r {
                Some(i) => {
                    &&& i < self.inverted_index@.len()
                    &&& self.inverted_index@[i as int].term@ == t@
                    &&& forall|m: int|
                        0 <= m < i ==> (#[trigger] self.inverted_index@[m]).term@ != t@
                },
                None => !idx_has(self.inverted_index@, t@),
            },
    {
        let n = self.inverted_index.len();
        for i in 0..n
            invariant
                n == self.inverted_index@.len(),
                forall|m: int| 0 <= m < i ==> (#[trigger] self.inverted_index@[m]).term@ != t@,
        {
            if self.inverted_index[i].term == *t {
                return Some(i);
            }
        }
        None
    }

    /// Number of currently registered documents.
    fn count_docs(&self) -> (r: usize)
        ensures
            r == self.num_docs_spec(),
    {
        let n = self.documents.len();
        let mut c: usize = 0;
        proof {
            assert(self.documents@.take(0) =~= Seq::<Option<DocumentEntry>>::empty());
        }
        for i in 0..n
            invariant
                n == self.documents@.len(),
                c <= i,
                c == count_some(self.documents@.take(i as int)),
        {
            proof {
                assert(self.documents@.take(i + 1) =~= self.documents@.take(i as int).push(
                    self.documents@[i as int],
                ));
                lemma_count_some_push(self.documents@.take(i as int), self.documents@[i as int]);
            }
            if self.documents[i].is_some() {
                c = c + 1;
            }
        }
        proof {
            assert(self.documents@.take(n as int) =~= self.documents@);
        }
        c
    }

    /// Removes the document with the given id, if registered, and cascades
    /// through the index: every posting for the id is removed, and any term
    /// whose posting list becomes empty is pruned from the index entirely.
    /// Returns whether the document existed before the call; removing an id
    /// never issued or already removed is a no-op returning `false`.
    #[verifier::rlimit(100)]
    pub fn remove_id(&mut self, id: usize) -> (r: bool)
        requires
            old(self).wf(),
        ensures
            final(self).wf(),
            r == (old(self).doc_spec(id as int) is Some),
            !r ==> *final(self) == *old(self),
            final(self).next_id_spec() == old(self).next_id_spec(),
            final(self).doc_spec(id as int) is None,
            forall|j: int| j != id ==> final(self).doc_spec(j) == old(self).doc_spec(j),
            forall|t: Seq<char>| final(self).tf_spec(t, id as int) == 0,
            forall|t: Seq<char>, j: int|
                j != id ==> final(self).tf_spec(t, j) == old(self).tf_spec(t, j),
            forall|t: Seq<char>|
                final(self).df_spec(t) == old(self).df_spec(t) - if old(self).tf_spec(
                    t,
                    id as int,
                ) > 0 {
                    1int
                } else {
                    0int
                },
            r ==> final(self).num_docs_spec() == old(self).num_docs_spec() - 1,
            !r ==> final(self).num_docs_spec() == old(self).num_docs_spec(),
    {
        let existed = id < self.documents.len() && self.documents[id].is_some();
        if !existed {
            proof {
                // An id that is not registered occurs in no posting list.
                let idx = self.inverted_index@;
                let docs = self.documents@;
                assert forall|t: Seq<char>| self.tf_spec(t, id as int) == 0 by {
                    if ps_count(idx_postings(idx, t), id as int) > 0 {
                        lemma_ps_count_pos_has(idx_postings(idx, t), id as int);
                        if idx_has(idx, t) {
                            let i0 = choose|i: int| 0 <= i < idx.len() && idx[i].term@ == t;
                            lemma_idx_postings_at(idx, t, i0);
                            let k0 = choose|k: int|
                                0 <= k < idx[i0].postings@.len() && idx[i0].postings@[k].doc_id
                                    == id;
                            assert(posting_ok(docs, idx[i0].postings@[k0]));
                            assert(false);
                        } else {
                            lemma_idx_postings_absent(idx, t);
                            assert(false);
                        }
                    }
                }
            }
            return false;
        }
        let ghost old_idx = self.inverted_index@;
        let ghost old_docs = self.documents@;
        let idn = id;

        // Rebuild the index without `id`, pruning terms that become empty.
        let mut new_index: Vec<TermEntry> = Vec::new();
        // `nmap[p]` is the old position of the entry now at position `p`.
        let ghost mut nmap: Seq<int> = Seq::empty();
        let n = self.inverted_index.len();
        for i in 0..n
            invariant
                n == old_idx.len(),
                *self == *old(self),
                self.inverted_index@ == old_idx,
                self.documents@ == old_docs,
                old(self).wf(),
                idn == id,
                nmap.len() == new_index@.len(),
                forall|p: int|
                    #![trigger nmap[p]]
                    0 <= p < new_index@.len() ==> {
                        &&& 0 <= nmap[p] < i
                        &&& new_index@[p].term@ == old_idx[nmap[p]].term@
                        &&& new_index@[p].postings@ == strip(
                            old_idx[nmap[p]].postings@,
                            idn as int,
                        )
                        &&& new_index@[p].postings@.len() > 0
                    },
                forall|p1: int, p2: int|
                    0 <= p1 < p2 < new_index@.len() ==> #[trigger] nmap[p1] < #[trigger] nmap[p2],
                forall|j: int|
                    #![trigger old_idx[j]]
                    0 <= j < i ==> {
                        let kept = strip(old_idx[j].postings@, idn as int);
                        if kept.len() > 0 {
                            idx_has(new_index@, old_idx[j].term@) && idx_postings(
                                new_index@,
                                old_idx[j].term@,
                            ) == kept
                        } else {
                            !idx_has(new_index@, old_idx[j].term@)
                        }
                    },
        {
            let entry = &self.inverted_index[i];
            let ghost ps = entry.postings@;
            let mut kept: Vec<Posting> = Vec::new();
            let m = entry.postings.len();
            proof {
                assert(ps.take(0) =~= Seq::<Posting>::empty());
            }
            for k in 0..m
                invariant
                    m == ps.len(),
                    entry.postings@ == ps,
                    idn == id,
                    kept@ == strip(ps.take(k as int), idn as int),
            {
                proof {
                    assert(ps.take(k + 1) =~= ps.take(k as int).push(ps[k as int]));
                    lemma_strip_push(ps.take(k as int), ps[k as int], idn as int);
                }
                let pk = entry.postings[k];
                if pk.doc_id != idn {
                    kept.push(pk);
                }
            }
            proof {
                assert(ps.take(m as int) =~= ps);
            }
            let ghost t_i = entry.term@;
            proof {
                // The term at `i` differs from every term already placed.
                assert forall|p: int| 0 <= p < new_index@.len() implies new_index@[p].term@
                    != t_i by {
                    let j0 = nmap[p];
                    assert(old_idx[j0].term@ != old_idx[i as int].term@);
                }
                if idx_has(new_index@, t_i) {
                    let p0 = choose|p: int|
                        0 <= p < new_index@.len() && new_index@[p].term@ == t_i;
                    assert(false);
                }
            }
            if kept.len() > 0 {
                let ghost before_push = new_index@;
                new_index.push(TermEntry { term: entry.term.clone(), postings: kept });
                proof {
                    nmap = nmap.push(i as int);
                    let e_new = new_index@[new_index@.len() - 1];
                    assert(e_new.term@ == t_i);
                    assert(e_new.postings@ == strip(ps, idn as int));
                    assert forall|t: Seq<char>| true implies {
                        &&& idx_has(new_index@, t) == (idx_has(before_push, t) || t_i == t)
                        &&& idx_postings(new_index@, t) == if idx_has(before_push, t) {
                            idx_postings(before_push, t)
                        } else if t_i == t {
                            e_new.postings@
                        } else {
                            Seq::<Posting>::empty()
                        }
                    } by {
                        lemma_idx_push(before_push, e_new, t);
                        assert(new_index@ =~= before_push.push(e_new));
                    }
                }
            } else {
                proof {
                    let kept_g = strip(old_idx[i as int].postings@, idn as int);
                    assert(kept_g.len() == 0);
                }
            }
        }
        self.inverted_index = new_index;
        self.documents.set(id, None);
        proof {
            lemma_count_some_update_none(old_docs, id as int);
            let new_idx = self.inverted_index@;
            let new_docs = self.documents@;
            assert(new_docs == old_docs.update(id as int, None));

            // Well-formedness of the rebuilt index.
            assert forall|p: int, k: int|
                0 <= p < new_idx.len() && 0 <= k < new_idx[p].postings@.len() implies posting_ok(
                new_docs,
                #[trigger] new_idx[p].postings@[k],
            ) by {
                let j0 = nmap[p];
                let ps0 = old_idx[j0].postings@;
                lemma_strip_props(ps0, id as int, old_docs);
                assert(new_idx[p].postings@[k] == strip(ps0, id as int)[k]);
            }
            assert forall|p: int| 0 <= p < new_idx.len() implies ps_distinct(
                (#[trigger] new_idx[p]).postings@,
            ) by {
                let j0 = nmap[p];
                lemma_strip_props(old_idx[j0].postings@, id as int, old_docs);
            }
            assert forall|p1: int, p2: int| 0 <= p1 < p2 < new_idx.len() implies (
            #[trigger] new_idx[p1]).term@ != (#[trigger] new_idx[p2]).term@ by {
                assert(nmap[p1] < nmap[p2]);
                assert(old_idx[nmap[p1]].term@ != old_idx[nmap[p2]].term@);
            }

            assert forall|p: int| 0 <= p < new_idx.len() implies (
            #[trigger] new_idx[p]).postings@.len() > 0 by {
                assert(0 <= nmap[p] < old_idx.len());
            }
            assert forall|i: int| 0 <= i < new_docs.len() implies (
            #[trigger] new_docs[i] matches Some(e) ==> e.id == i) by {
                if i != id {
                    assert(new_docs[i] == old_docs[i]);
                }
            }
            assert(self.wf());

            // The per-term contract, for every term.
            assert forall|t: Seq<char>| self.tf_spec(t, id as int) == 0 by {
                lemma_removed_term(old_idx, new_idx, nmap, old_docs, id as int, t);
            }
            assert forall|t: Seq<char>, j: int| j != id implies self.tf_spec(t, j) == old(
                self,
            ).tf_spec(t, j) by {
                lemma_removed_term(old_idx, new_idx, nmap, old_docs, id as int, t);
            }
            assert forall|t: Seq<char>| self.df_spec(t) == old(self).df_spec(t) - (if old(
                self,
            ).tf_spec(t, id as int) > 0 {
                1int
            } else {
                0int
            }) by {
                lemma_removed_term(old_idx, new_idx, nmap, old_docs, id as int, t);
            }
        }
        true
    }

    /// Adds one occurrence of `term` for document `id` to the index.
    #[verifier::rlimit(100)]
    fn bump_token(&mut self, term: &String, id: usize)
        requires
            old(self).wf(),
            old(self).doc_spec(id as int) matches Some(e) && old(self).tf_spec(term@, id as int)
                < e.token_count,
        ensures
            final(self).wf(),
            final(self).documents@ == old(self).documents@,
            final(self).tf_spec(term@, id as int) == old(self).tf_spec(term@, id as int) + 1,
            forall|t: Seq<char>, j: int|
                !(t == term@ && j == id) ==> final(self).tf_spec(t, j) == old(self).tf_spec(t, j),
            forall|t: Seq<char>|
                final(self).df_spec(t) == old(self).df_spec(t) + (if t == term@ && old(
                    self,
                ).tf_spec(term@, id as int) == 0 {
                    1int
                } else {
                    0int
                }),
    {
        let ghost before = self.inverted_index@;
        let ghost docs = self.documents@;
        let idx_opt = self.find_term_idx(term);
        match idx_opt {
            None => {
                proof {
                    lemma_idx_postings_absent(before, term@);
                }
                let mut ps: Vec<Posting> = Vec::new();
                ps.push(Posting { doc_id: id, count: 1 });
                self.inverted_index.push(TermEntry { term: term.clone(), postings: ps });
                proof {
                    let e_new = self.inverted_index@[before.len() as int];
                    assert(self.inverted_index@ =~= before.push(e_new));
                    assert(e_new.term@ == term@);
                    assert(e_new.postings@ =~= seq![Posting { doc_id: id, count: 1 }]);
                    assert forall|t: Seq<char>| true implies {
                        &&& idx_has(self.inverted_index@, t) == (idx_has(before, t) || term@ == t)
                        &&& idx_postings(self.inverted_index@, t) == if idx_has(before, t) {
                            idx_postings(before, t)
                        } else if term@ == t {
                            e_new.postings@
                        } else {
                            Seq::<Posting>::empty()
                        }
                    } by {
                        lemma_idx_push(before, e_new, t);
                    }
                    assert(ps_count(e_new.postings@, id as int) == 1);
                    assert forall|j: int| j != id implies ps_count(e_new.postings@, j) == 0 by {
                        assert(e_new.postings@.len() == 1);
                        assert(e_new.postings@[0].doc_id == id);
                        assert(e_new.postings@.skip(1) =~= Seq::<Posting>::empty());
                        assert(ps_count(e_new.postings@, j) == ps_count(
                            e_new.postings@.skip(1),
                            j,
                        ));
                        assert(ps_count(Seq::<Posting>::empty(), j) == 0);
                    }
                    assert(self.tf_spec(term@, id as int) == 1);
                    assert(old(self).tf_spec(term@, id as int) == 0);
                    assert forall|t: Seq<char>, j: int| !(t == term@ && j == id) implies self
                        .tf_spec(t, j) == old(self).tf_spec(t, j) by {
                        if t == term@ {
                            assert(ps_count(idx_postings(before, t), j) == 0);
                            assert(ps_count(e_new.postings@, j) == 0);
                        } else {
                            if !idx_has(before, t) {
                                lemma_idx_postings_absent(before, t);
                                assert(idx_postings(self.inverted_index@, t) == Seq::<
                                    Posting,
                                >::empty());
                            }
                        }
                    }
                    assert forall|t: Seq<char>| self.df_spec(t) == old(self).df_spec(t) + (if t
                        == term@ && old(self).tf_spec(term@, id as int) == 0 {
                        1int
                    } else {
                        0int
                    }) by {
                        if t == term@ {
                            assert(idx_postings(self.inverted_index@, t) == e_new.postings@);
                            assert(idx_postings(before, t) == Seq::<Posting>::empty());
                        } else {
                            if !idx_has(before, t) {
                                lemma_idx_postings_absent(before, t);
                            }
                        }
                    }
                }
            },
            Some(i) => {
                let ghost i_g = i as int;
                let mut entry = self.inverted_index.remove(i);
                let ghost ps0 = entry.postings@;
                proof {
                    assert(ps0 == before[i_g].postings@);
                    assert(ps_distinct(ps0));
                    lemma_idx_postings_at(before, term@, i_g);
                }
                let pos = find_posting_idx(&entry.postings, id);
                match pos {
                    None => {
                        proof {
                            lemma_ps_count_absent(ps0, id as int);
                        }
                        entry.postings.push(Posting { doc_id: id, count: 1 });
                        proof {
                            assert forall|j: int| true implies {
                                &&& ps_has(entry.postings@, j) == (ps_has(ps0, j) || id == j)
                                &&& ps_count(entry.postings@, j) == if ps_has(ps0, j) {
                                    ps_count(ps0, j)
                                } else if id == j {
                                    1usize
                                } else {
                                    0usize
                                }
                            } by {
                                lemma_ps_count_push(ps0, Posting { doc_id: id, count: 1 }, j);
                            }
                        }
                    },
                    Some(k) => {
                        let c = entry.postings[k].count;
                        proof {
                            lemma_ps_count_at(ps0, id as int, k as int);
                            assert(old(self).tf_spec(term@, id as int) == c);
                        }
                        entry.postings.set(k, Posting { doc_id: id, count: c + 1 });
                        proof {
                            let ps1 = entry.postings@;
                            assert(ps1 == ps0.update(k as int, Posting { doc_id: id, count: (c + 1) as usize }));
                            assert forall|k1: int, k2: int| 0 <= k1 < k2 < ps1.len() implies (
                            #[trigger] ps1[k1]).doc_id != (#[trigger] ps1[k2]).doc_id by {
                                assert(ps1[k1].doc_id == ps0[k1].doc_id);
                                assert(ps1[k2].doc_id == ps0[k2].doc_id);
                            }
                            lemma_ps_count_at(ps1, id as int, k as int);
                            assert forall|j: int| j != id implies ps_count(ps1, j) == ps_count(
                                ps0,
                                j,
                            ) by {
                                if ps_has(ps0, j) {
                                    let m = choose|m: int|
                                        0 <= m < ps0.len() && ps0[m].doc_id == j;
                                    assert(m != k);
                                    assert(ps1[m] == ps0[m]);
                                    lemma_ps_count_at(ps0, j, m);
                                    lemma_ps_count_at(ps1, j, m);
                                } else {
                                    if ps_has(ps1, j) {
                                        let m = choose|m: int|
                                            0 <= m < ps1.len() && ps1[m].doc_id == j;
                                        assert(ps0[m].doc_id == j);
                                    }
                                    lemma_ps_count_absent(ps0, j);
                                    lemma_ps_count_absent(ps1, j);
                                }
                            }
                        }
                    },
                }
                let ghost e_new = entry;
                self.inverted_index.insert(i, entry);
                proof {
                    assert(self.inverted_index@ =~= before.update(i_g, e_new));
                    let now = self.inverted_index@;
                    assert(e_new.term@ == term@);
                    assert forall|i1: int, i2: int| 0 <= i1 < i2 < now.len() implies (
                    #[trigger] now[i1]).term@ != (#[trigger] now[i2]).term@ by {
                        assert(now[i1].term@ == before[i1].term@);
                        assert(now[i2].term@ == before[i2].term@);
                    }
                    lemma_idx_postings_at(now, term@, i_g);
                    assert forall|t: Seq<char>| t != term@ implies idx_postings(now, t)
                        == idx_postings(before, t) && idx_has(now, t) == idx_has(before, t) by {
                        assert(idx_has(now, t) == idx_has(before, t)) by {
                            if idx_has(now, t) {
                                let w = choose|w: int| 0 <= w < now.len() && now[w].term@ == t;
                                assert(before[w].term@ == t);
                            }
                            if idx_has(before, t) {
                                let w = choose|w: int|
                                    0 <= w < before.len() && before[w].term@ == t;
                                assert(now[w].term@ == t);
                            }
                        }
                        if idx_has(before, t) {
                            let w = choose|w: int| 0 <= w < before.len() && before[w].term@ == t;
                            assert(w != i_g);
                            lemma_idx_postings_at(before, t, w);
                            lemma_idx_postings_at(now, t, w);
                        } else {
                            lemma_idx_postings_absent(before, t);
                            lemma_idx_postings_absent(now, t);
                        }
                    }
                    assert(idx_postings(now, term@) == e_new.postings@);
                    assert(idx_postings(before, term@) == ps0);
                    assert(self.tf_spec(term@, id as int) == old(self).tf_spec(term@, id as int)
                        + 1);
                    assert forall|t: Seq<char>, j: int| !(t == term@ && j == id) implies self
                        .tf_spec(t, j) == old(self).tf_spec(t, j) by {
                        if t != term@ {
                            assert(idx_postings(now, t) == idx_postings(before, t));
                        } else {
                            if !ps_has(ps0, j) {
                                lemma_ps_count_absent(ps0, j);
                            }
                        }
                    }
                    assert forall|t: Seq<char>| self.df_spec(t) == old(self).df_spec(t) + (if t
                        == term@ && old(self).tf_spec(term@, id as int) == 0 {
                        1int
                    } else {
                        0int
                    }) by {
                        if t != term@ {
                            assert(idx_postings(now, t) == idx_postings(before, t));
                        } else {
                            if ps_has(ps0, id as int) {
                                let k0 = choose|k: int|
                                    0 <= k < ps0.len() && ps0[k].doc_id == id;
                                lemma_ps_count_at(ps0, id as int, k0);
                                assert(posting_ok(docs, before[i_g].postings@[k0]));
                                assert(old(self).tf_spec(term@, id as int) > 0);
                            } else {
                                lemma_ps_count_absent(ps0, id as int);
                            }
                        }
                    }
                }
            },
        }
    }

    /// Registers a document. The caller supplies the outcome of reading the
    /// file's bytes and of capturing its metadata; registration succeeds
    /// exactly when both were obtained, and fails with `AddDocumentError`
    /// carrying the reader's message otherwise. On success the document
    /// gets the next id, its content is tokenized, and every term's posting
    /// count for the new id becomes the term's occurrence count in the
    /// token sequence. On failure nothing is mutated: all index deltas are
    /// applied only after every fallible step has succeeded, so a metadata
    /// failure cannot leave stray posting counts behind.
    #[verifier::rlimit(100)]
    pub fn add_document(
        &mut self,
        path: String,
        content: Result<Vec<u8>, String>,
        metadata: Result<DocMetaData, String>,
    ) -> (r: Result<(), OxidexError>)
        requires
            old(self).wf(),
        ensures
            final(self).wf(),
            r is Ok <==> (content is Ok && metadata is Ok),
            content matches Err(m) ==> r == Err::<(), OxidexError>(
                OxidexError::AddDocumentError(m),
            ) && *final(self) == *old(self),
            content is Ok ==> (metadata matches Err(m) ==> r == Err::<(), OxidexError>(
                OxidexError::AddDocumentError(m),
            ) && *final(self) == *old(self)),
            content matches Ok(bytes) ==> (metadata matches Ok(md) ==> {
                let toks = tokens_of(decoded_of(bytes@));
                let new_id = old(self).next_id_spec();
                &&& final(self).next_id_spec() == new_id + 1
                &&& final(self).num_docs_spec() == old(self).num_docs_spec() + 1
                &&& final(self).doc_spec(new_id) matches Some(e) && e.id as int == new_id
                    && e.path == path && e.metadata == md && e.token_count == toks.len()
                &&& forall|j: int| j != new_id ==> final(self).doc_spec(j) == old(self).doc_spec(j)
                &&& forall|t: Seq<char>| final(self).tf_spec(t, new_id) == occ(toks, t)
                &&& forall|t: Seq<char>, j: int|
                    j != new_id ==> final(self).tf_spec(t, j) == old(self).tf_spec(t, j)
                &&& forall|t: Seq<char>|
                    final(self).df_spec(t) == old(self).df_spec(t) + (if occ(toks, t) > 0 {
                        1int
                    } else {
                        0int
                    })
            }),
    {
        let bytes = match content {
            Ok(b) => b,
            Err(m) => {
                return Err(OxidexError::AddDocumentError(m));
            },
        };
        let md = match metadata {
            Ok(m) => m,
            Err(m) => {
                return Err(OxidexError::AddDocumentError(m));
            },
        };
        let toks = tokenize(&bytes);
        let ghost toks_seq = toks.deep_view();
        let ghost old_docs = self.documents@;
        let new_id = self.documents.len();
        let entry = DocumentEntry::new(new_id, path, md, toks.len());
        let ghost entry_g = entry;
        self.documents.push(Some(entry));
        proof {
            lemma_count_some_push(old_docs, Some(entry_g));
            assert(toks_seq.len() == tokens_of(decoded_of(bytes@)).len());
            assert(self.documents@ == old_docs.push(Some(entry_g)));
            // An id that was never issued occurs in no posting list, so the
            // new document starts with every count at zero.
            assert forall|t: Seq<char>| self.tf_spec(t, new_id as int) == 0 by {
                let idx = self.inverted_index@;
                if ps_count(idx_postings(idx, t), new_id as int) > 0 {
                    lemma_ps_count_pos_has(idx_postings(idx, t), new_id as int);
                    if idx_has(idx, t) {
                        let i0 = choose|i: int| 0 <= i < idx.len() && idx[i].term@ == t;
                        lemma_idx_postings_at(idx, t, i0);
                        let k0 = choose|k: int|
                            0 <= k < idx[i0].postings@.len() && idx[i0].postings@[k].doc_id
                                == new_id;
                        assert(posting_ok(old_docs, idx[i0].postings@[k0]));
                        assert(false);
                    } else {
                        lemma_idx_postings_absent(idx, t);
                        assert(false);
                    }
                }
            }
            assert(self.wf()) by {
                assert forall|i: int, k: int|
                    0 <= i < self.inverted_index@.len() && 0 <= k
                        < self.inverted_index@[i].postings@.len() implies posting_ok(
                    self.documents@,
                    #[trigger] self.inverted_index@[i].postings@[k],
                ) by {
                    assert(posting_ok(old_docs, self.inverted_index@[i].postings@[k]));
                    let p = self.inverted_index@[i].postings@[k];
                    assert(self.documents@[p.doc_id as int] == old_docs[p.doc_id as int]);
                }
            }
            assert(toks_seq.take(0) =~= Seq::<Seq<char>>::empty());
        }
        let n_toks = toks.len();
        for k in 0..n_toks
            invariant
                n_toks == toks@.len(),
                toks.deep_view() == toks_seq,
                n_toks == toks_seq.len(),
                self.wf(),
                self.documents@ == old_docs.push(Some(entry_g)),
                new_id as int == old_docs.len(),
                entry_g.token_count == n_toks,
                forall|t: Seq<char>|
                    self.tf_spec(t, new_id as int) == occ(toks_seq.take(k as int), t),
                forall|t: Seq<char>, j: int|
                    j != new_id ==> self.tf_spec(t, j) == old(self).tf_spec(t, j),
                forall|t: Seq<char>|
                    self.df_spec(t) == old(self).df_spec(t) + (if occ(toks_seq.take(k as int), t)
                        > 0 {
                        1int
                    } else {
                        0int
                    }),
        {
            let ghost prev = *self;
            let tk = &toks[k];
            proof {
                assert(tk@ == toks_seq[k as int]);
                crate::tokenizer::lemma_occ_le_len(toks_seq.take(k as int), tk@);
                assert(toks_seq.take(k as int).len() == k);
                assert(self.doc_spec(new_id as int) == Some(entry_g));
            }
            self.bump_token(tk, new_id);
            proof {
                assert forall|t: Seq<char>| occ(toks_seq.take(k + 1), t) == occ(
                    toks_seq.take(k as int),
                    t,
                ) + (if toks_seq[k as int] == t {
                    1nat
                } else {
                    0nat
                }) by {
                    assert(toks_seq.take(k + 1) =~= toks_seq.take(k as int).push(
                        toks_seq[k as int],
                    ));
                    crate::tokenizer::lemma_occ_push(toks_seq.take(k as int), toks_seq[k as int], t);
                }
                assert forall|t: Seq<char>| self.tf_spec(t, new_id as int) == occ(
                    toks_seq.take(k + 1),
                    t,
                ) by {
                    if t == tk@ {
                        assert(self.tf_spec(t, new_id as int) == prev.tf_spec(t, new_id as int)
                            + 1);
                    } else {
                        assert(self.tf_spec(t, new_id as int) == prev.tf_spec(t, new_id as int));
                    }
                }
                assert forall|t: Seq<char>| self.df_spec(t) == old(self).df_spec(t) + (if occ(
                    toks_seq.take(k + 1),
                    t,
                ) > 0 {
                    1int
                } else {
                    0int
                }) by {
                    if t == tk@ {
                        if prev.tf_spec(t, new_id as int) == 0 {
                            assert(occ(toks_seq.take(k as int), t) == 0);
                        } else {
                            assert(occ(toks_seq.take(k as int), t) > 0);
                        }
                    }
                }
            }
        }
        proof {
            assert(toks_seq.take(n_toks as int) =~= toks_seq);
            assert(self.doc_spec(new_id as int) == Some(entry_g));
        }
        Ok(())
    }

    /// Single-term search: one result per document the term occurs in,
    /// carrying the exact quantities the TF-IDF score is computed from,
    /// sorted by score descending with ties broken by ascending document
    /// id. A term that was never indexed yields an empty list. The query is
    /// not re-normalized: callers wanting parity with indexed terms must
    /// normalize it as the tokenizer does.
    #[verifier::rlimit(100)]
    pub fn search(&self, query: String) -> (r: Vec<SearchResult>)
        requires
            self.wf(),
        ensures
            r@.len() == self.df_spec(query@),
            forall|m: int|
                #![trigger r@[m]]
                0 <= m < r@.len() ==> {
                    let h = r@[m];
                    &&& h.term_freq as nat == self.tf_spec(query@, h.doc_id as int)
                    &&& h.term_freq >= 1
                    &&& self.doc_spec(h.doc_id as int) matches Some(e) && e.token_count
                        == h.token_count
                    &&& h.doc_freq as nat == self.df_spec(query@)
                    &&& h.corpus_size as nat == self.num_docs_spec()
                },
            forall|m1: int, m2: int| 0 <= m1 < m2 < r@.len() ==> ranked_before(r@[m1], r@[m2]),
            forall|id: int| self.tf_spec(query@, id) > 0 ==> lists_doc(r@, id),
    {
        let n = self.count_docs();
        let t_idx = self.find_term_idx(&query);
        match t_idx {
            None => {
                proof {
                    lemma_idx_postings_absent(self.inverted_index@, query@);
                    assert forall|id: int| self.tf_spec(query@, id) == 0 by {
                        assert(ps_count(Seq::<Posting>::empty(), id) == 0);
                    }
                }
                Vec::new()
            },
            Some(i) => {
                let ghost idx = self.inverted_index@;
                let ghost i_g = i as int;
                proof {
                    lemma_idx_postings_first(idx, query@, i_g);
                }
                let entry = &self.inverted_index[i];
                let ghost ps = entry.postings@;
                let df = entry.postings.len();
                let mut hits: Vec<SearchResult> = Vec::new();
                let m = entry.postings.len();
                for k in 0..m
                    invariant
                        self.wf(),
                        0 <= i_g < self.inverted_index@.len(),
                        entry == self.inverted_index@[i_g],
                        entry.postings@ == ps,
                        ps == idx_postings(self.inverted_index@, query@),
                        m == ps.len(),
                        df == m,
                        n == self.num_docs_spec(),
                        hits@.len() == k,
                        forall|k2: int|
                            #![trigger hits@[k2]]
                            0 <= k2 < k ==> {
                                let h = hits@[k2];
                                &&& h.doc_id == ps[k2].doc_id
                                &&& h.term_freq == ps[k2].count
                                &&& self.doc_spec(h.doc_id as int) matches Some(e)
                                    && e.token_count == h.token_count
                                &&& h.doc_freq == df
                                &&& h.corpus_size == n
                            },
                {
                    let p = entry.postings[k];
                    proof {
                        assert(0 <= k < self.inverted_index@[i_g].postings@.len());
                        assert(posting_ok(
                            self.documents@,
                            self.inverted_index@[i_g].postings@[k as int],
                        ));
                    }
                    let tc = match &self.documents[p.doc_id] {
                        Some(d) => d.token_count,
                        None => 1,  // defensive fallback; unreachable while well formed
                    };
                    hits.push(
                        SearchResult {
                            doc_id: p.doc_id,
                            term_freq: p.count,
                            token_count: tc,
                            doc_freq: df,
                            corpus_size: n,
                        },
                    );
                }
                let ghost hits_g = hits@;
                proof {
                    assert(ps_distinct(ps)) by {
                        assert(ps == self.inverted_index@[i_g].postings@);
                    }
                    assert forall|a: int, b: int|
                        0 <= a < hits_g.len() && 0 <= b < hits_g.len() implies same_query(
                        #[trigger] hits_g[a],
                        #[trigger] hits_g[b],
                    ) by {}
                    assert forall|a: int, b: int| 0 <= a < b < hits_g.len() implies (
                    #[trigger] hits_g[a]).doc_id != (#[trigger] hits_g[b]).doc_id by {
                        assert(ps[a].doc_id != ps[b].doc_id);
                    }
                    assert forall|a: int| 0 <= a < hits_g.len() implies (
                    #[trigger] hits_g[a]).token_count >= 1 by {
                        assert(posting_ok(self.documents@, self.inverted_index@[i_g].postings@[a]));
                    }
                    assert(coherent_hits(hits_g));
                }
                let out = rank_hits(hits);
                proof {
                    assert forall|m2: int| #![trigger out@[m2]] 0 <= m2 < out@.len() implies {
                        let h = out@[m2];
                        &&& h.term_freq as nat == self.tf_spec(query@, h.doc_id as int)
                        &&& h.term_freq >= 1
                        &&& self.doc_spec(h.doc_id as int) matches Some(e) && e.token_count
                            == h.token_count
                        &&& h.doc_freq as nat == self.df_spec(query@)
                        &&& h.corpus_size as nat == self.num_docs_spec()
                    } by {
                        assert(among(out@[m2], hits_g));
                        let j = choose|j: int| 0 <= j < hits_g.len() && hits_g[j] == out@[m2];
                        lemma_ps_count_at(ps, ps[j].doc_id as int, j);
                        assert(posting_ok(self.documents@, self.inverted_index@[i_g].postings@[j]));
                    }
                    assert forall|id: int| self.tf_spec(query@, id) > 0 implies lists_doc(
                        out@,
                        id,
                    ) by {
                        lemma_ps_count_pos_has(ps, id);
                        let k0 = choose|k: int| 0 <= k < ps.len() && ps[k].doc_id == id;
                        assert(hits_g[k0].doc_id == id);
                        assert(among(hits_g[k0], out@));
                        let m0 = choose|m2: int|
                            0 <= m2 < out@.len() && out@[m2] == hits_g[k0];
                        assert(out@[m0].doc_id == id);
                    }
                }
                out
            },
        }
    }

    /// Occurrence count of `token` in document `id`; `0` if either is
    /// unknown to the index.
    pub fn term_frequency(&self, token: &String, id: usize) -> (r: usize)
        ensures
            r as nat == self.tf_spec(token@, id as int),
    {
        match self.find_term_idx(token) {
            None => {
                proof {
                    lemma_idx_postings_absent(self.inverted_index@, token@);
                }
                0
            },
            Some(i) => {
                proof {
                    lemma_idx_postings_first(self.inverted_index@, token@, i as int);
                }
                let entry = &self.inverted_index[i];
                match find_posting_idx(&entry.postings, id) {
                    None => {
                        proof {
                            lemma_ps_count_absent(entry.postings@, id as int);
                        }
                        0
                    },
                    Some(k) => {
                        proof {
                            lemma_ps_count_first(entry.postings@, id as int, k as int);
                        }
                        entry.postings[k].count
                    },
                }
            },
        }
    }

    /// Number of documents `token` occurs in; `0` if the term was never
    /// indexed.
    pub fn document_frequency(&self, token: &String) -> (r: usize)
        ensures
            r as nat == self.df_spec(token@),
    {
        match self.find_term_idx(token) {
            None => {
                proof {
                    lemma_idx_postings_absent(self.inverted_index@, token@);
                }
                0
            },
            Some(i) => {
                proof {
                    lemma_idx_postings_first(self.inverted_index@, token@, i as int);
                }
                self.inverted_index[i].postings.len()
            },
        }
    }

    /// Ids are issued densely from zero: every registered document's id is
    /// below the next id to assign, and is the slot it occupies — together
    /// with `add_document` assigning exactly `next_id_spec` and stepping it
    /// by one, and `remove_id` never touching it, issued ids are exactly
    /// `0, 1, 2, …` in call order, with no reuse.
    pub proof fn lemma_issued_ids(self)
        requires
            self.wf(),
        ensures
            forall|id: int|
                #![trigger self.doc_spec(id)]
                self.doc_spec(id) matches Some(e) ==> 0 <= id < self.next_id_spec() && e.id as int
                    == id,
    {
        assert forall|id: int| 0 <= id < self.documents@.len() implies (
        #[trigger] self.documents@[id] matches Some(e) ==> e.id == id) by {}
    }

    /// A term stands in the index exactly while some document still counts
    /// it: a posting list never lingers empty.
    pub proof fn lemma_no_empty_posting_lists(self)
        requires
            self.wf(),
        ensures
            forall|t: Seq<char>| self.has_term_spec(t) <==> self.df_spec(t) > 0,
    {
        assert forall|t: Seq<char>| self.has_term_spec(t) <==> self.df_spec(t) > 0 by {
            let idx = self.inverted_index@;
            if idx_has(idx, t) {
                let i0 = choose|i: int| 0 <= i < idx.len() && idx[i].term@ == t;
                lemma_idx_postings_at(idx, t, i0);
                assert(idx[i0].postings@.len() > 0);
            } else {
                lemma_idx_postings_absent(idx, t);
            }
        }
    }
}

impl Default for Oxidex {
    /// A fresh, empty engine, as `new` returns.
    fn default() -> (r: Oxidex)
        ensures
            r.wf(),
            r.next_id_spec() == 0,
            r.num_docs_spec() == 0,
            forall|id: int| r.doc_spec(id) is None,
            forall|t: Seq<char>, id: int| r.tf_spec(t, id) == 0,
            forall|t: Seq<char>| r.df_spec(t) == 0,
    {
        Oxidex::new()
    }
}

/// A posting list with every entry for `id` removed, order kept.
pub open spec fn strip(ps: Seq<Posting>, id: int) -> Seq<Posting>
    decreases ps.len(),
{
    if ps.len() == 0 {
        Seq::empty()
    } else if ps[0].doc_id == id {
        strip(ps.skip(1), id)
    } else {
        seq![ps[0]] + strip(ps.skip(1), id)
    }
}

/// What `strip` leaves: the same counts for every other id, nothing for
/// `id`, one entry fewer exactly when `id` was present.
proof fn lemma_strip_props(ps: Seq<Posting>, id: int, docs: Seq<Option<DocumentEntry>>)
    requires
        ps_distinct(ps),
        forall|m: int| 0 <= m < ps.len() ==> posting_ok(docs, #[trigger] ps[m]),
    ensures
        ps_distinct(strip(ps, id)),
        forall|n: int|
            0 <= n < strip(ps, id).len() ==> posting_ok(docs, #[trigger] strip(ps, id)[n]) && strip(
                ps,
                id,
            )[n].doc_id != id,
        strip(ps, id).len() == ps.len() - if ps_has(ps, id) {
            1int
        } else {
            0int
        },
        ps_count(strip(ps, id), id) == 0,
        forall|j: int| j != id ==> ps_count(strip(ps, id), j) == ps_count(ps, j),
    decreases ps.len(),
{
    if ps.len() == 0 {
        assert(!ps_has(ps, id));
    } else {
        let tail = ps.skip(1);
        assert forall|k1: int, k2: int| 0 <= k1 < k2 < tail.len() implies (#[trigger] tail[k1]).doc_id
            != (#[trigger] tail[k2]).doc_id by {
            assert(tail[k1] == ps[k1 + 1] && tail[k2] == ps[k2 + 1]);
        }
        assert forall|m: int| 0 <= m < tail.len() implies posting_ok(docs, #[trigger] tail[m]) by {
            assert(tail[m] == ps[m + 1]);
        }
        lemma_strip_props(tail, id, docs);
        if ps[0].doc_id == id {
            // Distinctness: no other entry carries `id`.
            assert forall|k: int| 0 <= k < tail.len() implies (#[trigger] tail[k]).doc_id != id by {
                assert(tail[k] == ps[k + 1] && ps[0].doc_id == id);
            }
            assert(!ps_has(tail, id));
            assert(ps_has(ps, id)) by {
                assert(ps[0].doc_id == id);
            }
            assert forall|j: int| j != id implies ps_count(strip(ps, id), j) == ps_count(ps, j) by {
                assert(ps_count(ps, j) == ps_count(tail, j));
            }
        } else {
            let st = strip(ps, id);
            assert(st == seq![ps[0]] + strip(tail, id));
            assert(st[0] == ps[0]);
            assert(st.skip(1) =~= strip(tail, id));
            assert forall|k1: int, k2: int| 0 <= k1 < k2 < st.len() implies (#[trigger] st[k1]).doc_id
                != (#[trigger] st[k2]).doc_id by {
                if k1 == 0 {
                    assert(st[k2] == strip(tail, id)[k2 - 1]);
                    // st[k2] comes from the stripped tail; it keeps its id,
                    // which differs from ps[0]'s by distinctness of `ps`.
                    lemma_strip_member(tail, id, k2 - 1);
                    let m = choose|m: int|
                        0 <= m < tail.len() && #[trigger] tail[m] == strip(tail, id)[k2 - 1];
                    assert(tail[m] == ps[m + 1]);
                } else {
                    assert(st[k1] == strip(tail, id)[k1 - 1]);
                    assert(st[k2] == strip(tail, id)[k2 - 1]);
                }
            }
            if ps_has(ps, id) {
                let k = choose|k: int| 0 <= k < ps.len() && ps[k].doc_id == id;
                assert(tail[k - 1].doc_id == id);
                assert(ps_has(tail, id));
            }
            if ps_has(tail, id) {
                let k = choose|k: int| 0 <= k < tail.len() && tail[k].doc_id == id;
                assert(ps[k + 1].doc_id == id);
                assert(ps_has(ps, id));
            }
            assert forall|j: int| j != id implies ps_count(strip(ps, id), j) == ps_count(ps, j) by {
                if j == ps[0].doc_id {
                    assert(ps_count(st, j) == st[0].count);
                    assert(ps_count(ps, j) == ps[0].count);
                } else {
                    assert(ps_count(st, j) == ps_count(st.skip(1), j));
                    assert(ps_count(ps, j) == ps_count(tail, j));
                }
            }
        }
    }
}

/// Every entry of `strip(ps, id)` is an entry of `ps`.
proof fn lemma_strip_member(ps: Seq<Posting>, id: int, n: int)
    requires
        0 <= n < strip(ps, id).len(),
    ensures
        exists|m: int| 0 <= m < ps.len() && #[trigger] ps[m] == strip(ps, id)[n],
    decreases ps.len(),
{
    if ps.len() == 0 {
    } else if ps[0].doc_id == id {
        lemma_strip_member(ps.skip(1), id, n);
        let m = choose|m: int| 0 <= m < ps.skip(1).len() && #[trigger] ps.skip(1)[m] == strip(
            ps.skip(1),
            id,
        )[n];
        assert(ps[m + 1] == strip(ps, id)[n]);
    } else {
        let st = strip(ps, id);
        assert(st[0] == ps[0]);
        assert(st.skip(1) =~= strip(ps.skip(1), id));
        if n == 0 {
            assert(ps[0] == st[0]);
        } else {
            lemma_strip_member(ps.skip(1), id, n - 1);
            let m = choose|m: int| 0 <= m < ps.skip(1).len() && #[trigger] ps.skip(1)[m] == strip(
                ps.skip(1),
                id,
            )[n - 1];
            assert(ps[m + 1] == st[n]);
        }
    }
}

proof fn lemma_strip_push(ps: Seq<Posting>, p: Posting, id: int)
    ensures
        strip(ps.push(p), id) == if p.doc_id == id {
            strip(ps, id)
        } else {
            strip(ps, id).push(p)
        },
    decreases ps.len(),
{
    if ps.len() == 0 {
        assert(ps.push(p).skip(1) =~= Seq::<Posting>::empty());
        assert(ps.push(p)[0] == p);
        assert(strip(Seq::<Posting>::empty(), id) == Seq::<Posting>::empty());
        if p.doc_id == id {
            assert(strip(ps.push(p), id) == strip(ps.push(p).skip(1), id));
        } else {
            assert(strip(ps.push(p), id) == seq![p] + strip(ps.push(p).skip(1), id));
            assert(seq![p] + Seq::<Posting>::empty() =~= strip(ps, id).push(p));
        }
    } else {
        assert(ps.push(p).skip(1) =~= ps.skip(1).push(p));
        lemma_strip_push(ps.skip(1), p, id);
        assert(ps.push(p)[0] == ps[0]);
        if ps[0].doc_id == id {
        } else {
            if p.doc_id == id {
                assert(strip(ps.push(p), id) == seq![ps[0]] + strip(ps.skip(1), id));
            } else {
                assert(strip(ps.push(p), id) =~= (seq![ps[0]] + strip(ps.skip(1), id)).push(p));
            }
        }
    }
}

/// How a push at the end of the index affects term lookup.
proof fn lemma_idx_push(s: Seq<TermEntry>, e: TermEntry, t: Seq<char>)
    ensures
        idx_has(s.push(e), t) == (idx_has(s, t) || e.term@ == t),
        idx_postings(s.push(e), t) == if idx_has(s, t) {
            idx_postings(s, t)
        } else if e.term@ == t {
            e.postings@
        } else {
            Seq::<Posting>::empty()
        },
    decreases s.len(),
{
    let pu = s.push(e);
    if s.len() == 0 {
        assert(pu.skip(1) =~= Seq::<TermEntry>::empty());
        assert(pu[0] == e);
        assert(idx_postings(Seq::<TermEntry>::empty(), t) == Seq::<Posting>::empty());
        assert(!idx_has(s, t));
        if e.term@ == t {
            assert(pu[0].term@ == t);
            assert(idx_has(pu, t));
            assert(idx_postings(pu, t) == e.postings@);
        } else {
            if idx_has(pu, t) {
                let i = choose|i: int| 0 <= i < pu.len() && pu[i].term@ == t;
                assert(i == 0);
                assert(false);
            }
            assert(idx_postings(pu, t) == idx_postings(pu.skip(1), t));
        }
    } else {
        assert(pu.skip(1) =~= s.skip(1).push(e));
        lemma_idx_push(s.skip(1), e, t);
        assert(pu[0] == s[0]);
        if s[0].term@ == t {
            assert(idx_has(s, t));
            assert(idx_postings(pu, t) == s[0].postings@);
            assert(idx_postings(s, t) == s[0].postings@);
        } else {
            assert(idx_postings(pu, t) == idx_postings(pu.skip(1), t));
            assert(idx_postings(s, t) == idx_postings(s.skip(1), t));
            assert(idx_has(s, t) == idx_has(s.skip(1), t)) by {
                if idx_has(s.skip(1), t) {
                    let i = choose|i: int| 0 <= i < s.skip(1).len() && s.skip(1)[i].term@ == t;
                    assert(s[i + 1].term@ == t);
                }
                if idx_has(s, t) {
                    let i = choose|i: int| 0 <= i < s.len() && s[i].term@ == t;
                    assert(i > 0);
                    assert(s.skip(1)[i - 1].term@ == t);
                }
            }
            assert(idx_has(pu, t) == (idx_has(s, t) || e.term@ == t)) by {
                if idx_has(pu, t) {
                    let i = choose|i: int| 0 <= i < pu.len() && pu[i].term@ == t;
                    if i < s.len() {
                        assert(s[i].term@ == t);
                    }
                }
                if idx_has(s, t) {
                    let i = choose|i: int| 0 <= i < s.len() && s[i].term@ == t;
                    assert(pu[i].term@ == t);
                }
                if e.term@ == t {
                    assert(pu[pu.len() - 1].term@ == t);
                }
            }
        }
    }
}

/// With pairwise distinct terms, the posting list of the term at slot `i`
/// is that slot's list.
proof fn lemma_idx_postings_at(s: Seq<TermEntry>, t: Seq<char>, i: int)
    requires
        forall|i1: int, i2: int|
            0 <= i1 < i2 < s.len() ==> (#[trigger] s[i1]).term@ != (#[trigger] s[i2]).term@,
        0 <= i < s.len(),
        s[i].term@ == t,
    ensures
        idx_postings(s, t) == s[i].postings@,
{
    assert(forall|m: int| 0 <= m < i ==> (#[trigger] s[m]).term@ != t);
    lemma_idx_postings_first(s, t, i);
}

/// What one term's posting list looks like after the whole index has been
/// rebuilt without document `id`.
proof fn lemma_removed_term(
    old_idx: Seq<TermEntry>,
    new_idx: Seq<TermEntry>,
    nmap: Seq<int>,
    old_docs: Seq<Option<DocumentEntry>>,
    id: int,
    t: Seq<char>,
)
    requires
        nmap.len() == new_idx.len(),
        forall|p: int|
            #![trigger nmap[p]]
            0 <= p < new_idx.len() ==> {
                &&& 0 <= nmap[p] < old_idx.len()
                &&& new_idx[p].term@ == old_idx[nmap[p]].term@
                &&& new_idx[p].postings@ == strip(old_idx[nmap[p]].postings@, id)
                &&& new_idx[p].postings@.len() > 0
            },
        forall|j: int|
            #![trigger old_idx[j]]
            0 <= j < old_idx.len() ==> {
                let kept = strip(old_idx[j].postings@, id);
                if kept.len() > 0 {
                    idx_has(new_idx, old_idx[j].term@) && idx_postings(new_idx, old_idx[j].term@)
                        == kept
                } else {
                    !idx_has(new_idx, old_idx[j].term@)
                }
            },
        forall|i1: int, i2: int|
            0 <= i1 < i2 < old_idx.len() ==> (#[trigger] old_idx[i1]).term@ != (
            #[trigger] old_idx[i2]).term@,
        forall|i: int| 0 <= i < old_idx.len() ==> ps_distinct((#[trigger] old_idx[i]).postings@),
        forall|i: int, k: int|
            0 <= i < old_idx.len() && 0 <= k < old_idx[i].postings@.len() ==> posting_ok(
                old_docs,
                #[trigger] old_idx[i].postings@[k],
            ),
    ensures
        ps_count(idx_postings(new_idx, t), id) == 0,
        forall|j: int|
            j != id ==> ps_count(idx_postings(new_idx, t), j) == ps_count(
                idx_postings(old_idx, t),
                j,
            ),
        idx_postings(new_idx, t).len() == idx_postings(old_idx, t).len() - (if ps_count(
            idx_postings(old_idx, t),
            id,
        ) > 0 {
            1int
        } else {
            0int
        }),
{
    if idx_has(old_idx, t) {
        let j0 = choose|j: int| 0 <= j < old_idx.len() && old_idx[j].term@ == t;
        lemma_idx_postings_at(old_idx, t, j0);
        let ps0 = old_idx[j0].postings@;
        assert forall|m: int| 0 <= m < ps0.len() implies posting_ok(old_docs, #[trigger] ps0[m]) by {
            assert(ps0[m] == old_idx[j0].postings@[m]);
        }
        lemma_strip_props(ps0, id, old_docs);
        if ps_has(ps0, id) {
            let k0 = choose|k: int| 0 <= k < ps0.len() && ps0[k].doc_id == id;
            lemma_ps_count_at(ps0, id, k0);
            assert(posting_ok(old_docs, ps0[k0]));
            assert(ps_count(ps0, id) > 0);
        } else {
            lemma_ps_count_absent(ps0, id);
        }
        let kept = strip(ps0, id);
        if kept.len() > 0 {
            assert(idx_postings(new_idx, t) == kept);
        } else {
            assert(!idx_has(new_idx, t));
            lemma_idx_postings_absent(new_idx, t);
            assert forall|j: int| j != id implies ps_count(idx_postings(new_idx, t), j) == ps_count(
                idx_postings(old_idx, t),
                j,
            ) by {
                assert(ps_count(kept, j) == ps_count(ps0, j));
            }
        }
    } else {
        lemma_idx_postings_absent(old_idx, t);
        assert(!idx_has(new_idx, t)) by {
            if idx_has(new_idx, t) {
                let p0 = choose|p: int| 0 <= p < new_idx.len() && new_idx[p].term@ == t;
                let j0 = nmap[p0];
                assert(old_idx[j0].term@ == t);
            }
        }
        lemma_idx_postings_absent(new_idx, t);
    }
}

/// Index of the first posting for `id` in a posting list, if present.
fn find_posting_idx(ps: &Vec<Posting>, id: usize) -> (r: Option<usize>)
    ensures
        match r {
            Some(k) => {
                &&& k < ps@.len()
                &&& ps@[k as int].doc_id == id
                &&& forall|m: int| 0 <= m < k ==> (#[trigger] ps@[m]).doc_id != id
            },
            None => !ps_has(ps@, id as int),
        },
{
    let n = ps.len();
    for k in 0..n
        invariant
            n == ps@.len(),
            forall|m: int| 0 <= m < k ==> (#[trigger] ps@[m]).doc_id != id,
    {
        if ps[k].doc_id == id {
            return Some(k);
        }
    }
    None
}

} // verus!
