//! The index-wide counters kept on the meta page, with the delete bitmap,
//! the length of each document and the document frequency of each term:
//! what an insert, a bulk delete and a seal do to them.
use crate::inverted::{lemma_postings_count, postings_ok, InvertedWriter, TERMINATED_DOC};
use crate::vector::Bm25Vector;
use vstd::prelude::*;

verus! {

/// The number of documents not marked deleted among the first `n`.
pub open spec fn live_count(deleted: Seq<bool>, n: int) -> nat
    decreases n,
{
    if n <= 0 {
        0
    } else {
        live_count(deleted, n - 1) + if deleted[n - 1] {
            0nat
        } else {
            1nat
        }
    }
}

/// The summed length of the documents not marked deleted among the first `n`.
pub open spec fn live_len(deleted: Seq<bool>, lens: Seq<u32>, n: int) -> nat
    decreases n,
{
    if n <= 0 {
        0
    } else {
        live_len(deleted, lens, n - 1) + if deleted[n - 1] {
            0nat
        } else {
            lens[n - 1] as nat
        }
    }
}

proof fn lemma_live_count_le(deleted: Seq<bool>, n: int)
    requires
        0 <= n,
    ensures
        live_count(deleted, n) <= n,
    decreases n,
{
    if n > 0 {
        lemma_live_count_le(deleted, n - 1);
    }
}

proof fn lemma_live_len_le(deleted: Seq<bool>, lens: Seq<u32>, n: int)
    requires
        0 <= n,
    ensures
        live_len(deleted, lens, n) <= n * 0xffff_ffff,
    decreases n,
{
    if n > 0 {
        lemma_live_len_le(deleted, lens, n - 1);
    }
}

/// Marking entry `i` deleted takes it out of both sums from `i + 1` on.
proof fn lemma_delete_one(deleted: Seq<bool>, lens: Seq<u32>, i: int, n: int)
    requires
        0 <= i < n <= deleted.len(),
        n <= lens.len(),
        !deleted[i],
    ensures
        live_count(deleted.update(i, true), n) + 1 == live_count(deleted, n),
        live_len(deleted.update(i, true), lens, n) + lens[i] == live_len(deleted, lens, n),
    decreases n,
{
    if n - 1 > i {
        lemma_delete_one(deleted, lens, i, n - 1);
    } else {
        lemma_prefix_same(deleted, deleted.update(i, true), lens, i);
    }
}

/// How many of the first `n` postings are for documents not marked deleted.
pub open spec fn live_in(deleted: Seq<bool>, postings: Seq<(u32, u32)>, n: int) -> nat
    decreases n,
{
    if n <= 0 {
        0
    } else {
        live_in(deleted, postings, n - 1) + if deleted[postings[n - 1].0 as int] {
            0nat
        } else {
            1nat
        }
    }
}

/// How many of the first `n` documents are live in `deleted` and marked in
/// `remove`.
pub open spec fn newly_deleted(deleted: Seq<bool>, remove: Seq<bool>, n: int) -> nat
    decreases n,
{
    if n <= 0 {
        0
    } else {
        newly_deleted(deleted, remove, n - 1) + if !deleted[n - 1] && remove[n - 1] {
            1nat
        } else {
            0nat
        }
    }
}

/// The summed length of the first `n` documents that are live in `deleted`
/// and marked in `remove`.
pub open spec fn newly_deleted_len(deleted: Seq<bool>, remove: Seq<bool>, lens: Seq<u32>, n: int) -> nat
    decreases n,
{
    if n <= 0 {
        0
    } else {
        newly_deleted_len(deleted, remove, lens, n - 1) + if !deleted[n - 1] && remove[n - 1] {
            lens[n - 1] as nat
        } else {
            0nat
        }
    }
}

/// Sums over a prefix on which two bitmaps agree are equal.
proof fn lemma_prefix_same(a: Seq<bool>, b: Seq<bool>, lens: Seq<u32>, n: int)
    requires
        0 <= n <= a.len(),
        n <= b.len(),
        forall|j: int| 0 <= j < n ==> a[j] == b[j],
    ensures
        live_count(a, n) == live_count(b, n),
        live_len(a, lens, n) == live_len(b, lens, n),
    decreases n,
{
    if n > 0 {
        lemma_prefix_same(a, b, lens, n - 1);
    }
}

/// Why an insert was refused.
#[derive(Debug, PartialEq, Eq, Structural)]
pub enum InsertError {
    /// Every docid has been given out; the last one is reserved.
    TooManyDocuments,
}

impl InsertError {
    pub fn message(&self) -> String {
        String::from_str("bm25 index can only store up to 2^32 - 1 documents")
    }
}

/// Counters of the whole index.
pub struct IndexMeta {
    doc_cnt: u32,
    doc_term_cnt: u64,
    sealed_doc_id: u32,
    current_doc_id: u32,
    deleted: Vec<bool>,
    doc_lens: Vec<u32>,
    term_stat: Vec<u32>,
}

impl IndexMeta {
    pub closed spec fn spec_doc_cnt(&self) -> u32 {
        self.doc_cnt
    }

    pub closed spec fn spec_doc_term_cnt(&self) -> u64 {
        self.doc_term_cnt
    }

    pub closed spec fn spec_sealed_doc_id(&self) -> u32 {
        self.sealed_doc_id
    }

    pub closed spec fn spec_current_doc_id(&self) -> u32 {
        self.current_doc_id
    }

    /// Whether each docid given out so far is marked deleted.
    pub closed spec fn spec_deleted(&self) -> Seq<bool> {
        self.deleted@
    }

    /// The length of each document, by docid.
    pub closed spec fn spec_doc_lens(&self) -> Seq<u32> {
        self.doc_lens@
    }

    /// The number of documents that hold each term id.
    pub closed spec fn spec_term_stat(&self) -> Seq<u32> {
        self.term_stat@
    }

    pub closed spec fn wf(&self) -> bool {
        let n = self.current_doc_id as int;
        &&& self.sealed_doc_id <= self.current_doc_id
        &&& self.deleted@.len() == n
        &&& self.doc_lens@.len() == n
        &&& self.doc_cnt == live_count(self.deleted@, n)
        &&& self.doc_term_cnt == live_len(self.deleted@, self.doc_lens@, n)
        &&& forall|t: int| 0 <= t < self.term_stat@.len() ==> self.term_stat@[t] <= n
        &&& self.term_stat@.len() <= u32::MAX
    }

    pub fn new() -> (r: Self)
        ensures
            r.wf(),
            r.spec_doc_cnt() == 0,
            r.spec_current_doc_id() == 0,
            r.spec_sealed_doc_id() == 0,
            r.spec_term_stat().len() == 0,
            r.spec_doc_term_cnt() == 0,
            r.spec_deleted() == Seq::<bool>::empty(),
            r.spec_doc_lens() == Seq::<u32>::empty(),
    {
        IndexMeta {
            doc_cnt: 0,
            doc_term_cnt: 0,
            sealed_doc_id: 0,
            current_doc_id: 0,
            deleted: Vec::new(),
            doc_lens: Vec::new(),
            term_stat: Vec::new(),
        }
    }

    /// What a well-formed meta holds: one delete flag and one length per
    /// docid given out, the count of live documents and the sum of their
    /// lengths, and document frequencies no larger than the docids given out.
    pub proof fn lemma_wf(&self)
        requires
            self.wf(),
        ensures
            self.spec_sealed_doc_id() <= self.spec_current_doc_id(),
            self.spec_deleted().len() == self.spec_current_doc_id(),
            self.spec_doc_lens().len() == self.spec_current_doc_id(),
            self.spec_doc_cnt() == live_count(self.spec_deleted(), self.spec_current_doc_id() as int),
            self.spec_doc_term_cnt() == live_len(
                self.spec_deleted(),
                self.spec_doc_lens(),
                self.spec_current_doc_id() as int,
            ),
            forall|t: int|
                0 <= t < self.spec_term_stat().len() ==> self.spec_term_stat()[t]
                    <= self.spec_current_doc_id(),
    {
    }

    pub fn doc_cnt(&self) -> (r: u32)
        ensures
            r == self.spec_doc_cnt(),
    {
        self.doc_cnt
    }

    pub fn doc_term_cnt(&self) -> (r: u64)
        ensures
            r == self.spec_doc_term_cnt(),
    {
        self.doc_term_cnt
    }

    pub fn current_doc_id(&self) -> (r: u32)
        ensures
            r == self.spec_current_doc_id(),
    {
        self.current_doc_id
    }

    pub fn sealed_doc_id(&self) -> (r: u32)
        ensures
            r == self.spec_sealed_doc_id(),
    {
        self.sealed_doc_id
    }

    pub fn term_stat(&self) -> (r: &[u32])
        ensures
            r@ == self.spec_term_stat(),
    {
        self.term_stat.as_slice()
    }

    /// Whether `doc_id` is marked deleted.
    pub fn is_deleted(&self, doc_id: u32) -> (r: bool)
        requires
            self.wf(),
            doc_id < self.spec_current_doc_id(),
        ensures
            r == self.spec_deleted()[doc_id as int],
    {
        self.deleted[doc_id as usize]
    }

    /// Gives the next docid to a new document and counts it: one more
    /// document, its length, and one more document for each of its terms.
    pub fn insert(&mut self, vector: &Bm25Vector) -> (r: Result<u32, InsertError>)
        requires
            old(self).wf(),
            vector.wf(),
            forall|k: int|
                0 <= k < vector.spec_indexes().len() ==> vector.spec_indexes()[k] < u32::MAX,
        ensures
            final(self).wf(),
            old(self).spec_current_doc_id() == TERMINATED_DOC ==> r == Err::<u32, InsertError>(
                InsertError::TooManyDocuments,
            ) && *final(self) == *old(self),
            old(self).spec_current_doc_id() < TERMINATED_DOC ==> {
                &&& r == Ok::<u32, InsertError>(old(self).spec_current_doc_id())
                &&& final(self).spec_current_doc_id() == old(self).spec_current_doc_id() + 1
                &&& final(self).spec_doc_cnt() == old(self).spec_doc_cnt() + 1
                &&& final(self).spec_doc_term_cnt() == old(self).spec_doc_term_cnt()
                    + vector.spec_doc_len()
                &&& final(self).spec_deleted() == old(self).spec_deleted().push(false)
                &&& final(self).spec_doc_lens() == old(self).spec_doc_lens().push(
                    vector.spec_doc_len(),
                )
                &&& final(self).spec_sealed_doc_id() == old(self).spec_sealed_doc_id()
                &&& forall|t: int|
                    0 <= t < final(self).spec_term_stat().len() ==> #[trigger] final(self).spec_term_stat()[t] == (if t < old(self).spec_term_stat().len() {
                        old(self).spec_term_stat()[t] as int
                    } else {
                        0
                    }) + if vector.spec_indexes().contains(t as u32) {
                        1int
                    } else {
                        0int
                    }
                &&& final(self).spec_term_stat().len() >= old(self).spec_term_stat().len()
                &&& forall|k: int|
                    0 <= k < vector.spec_indexes().len() ==> vector.spec_indexes()[k] < final(self).spec_term_stat().len()
            },
    {
        if self.current_doc_id == TERMINATED_DOC {
            return Err(InsertError::TooManyDocuments);
        }
        let doc_id = self.current_doc_id;
        let ghost n = doc_id as int;
        proof {
            lemma_live_count_le(self.deleted@, n);
            lemma_live_len_le(self.deleted@, self.doc_lens@, n);
            lemma_prefix_same(self.deleted@, self.deleted@.push(false), self.doc_lens@, n);
            lemma_prefix_same(
                self.deleted@,
                self.deleted@.push(false),
                self.doc_lens@.push(vector.spec_doc_len()),
                n,
            );
            lemma_prefix_same_lens(self.deleted@, self.doc_lens@, self.doc_lens@.push(vector.spec_doc_len()), n);
            assert(self.doc_term_cnt + vector.spec_doc_len() <= (n + 1) * 0xffff_ffff)
                by (nonlinear_arith)
                requires
                    self.doc_term_cnt <= n * 0xffff_ffff,
                    vector.spec_doc_len() <= 0xffff_ffff,
            ;
        }
        self.current_doc_id = doc_id + 1;
        self.doc_cnt = self.doc_cnt + 1;
        self.doc_term_cnt = self.doc_term_cnt + vector.doc_len() as u64;
        self.deleted.push(false);
        self.doc_lens.push(vector.doc_len());
        let ghost stat0 = self.term_stat@;
        let indexes = vector.indexes();
        let mut k: usize = 0;
        while k < indexes.len()
            invariant
                vector.wf(),
                indexes@ == vector.spec_indexes(),
                k <= indexes@.len(),
                forall|j: int| 0 <= j < indexes@.len() ==> indexes@[j] < u32::MAX,
                stat0.len() <= self.term_stat@.len() <= u32::MAX,
                forall|j: int| 0 <= j < k ==> indexes@[j] < self.term_stat@.len(),
                forall|t: u32|
                    (t as int) < self.term_stat@.len() ==> #[trigger] self.term_stat@[t as int]
                        == stat_after(stat0, indexes@.subrange(0, k as int), t),
                forall|t: int| 0 <= t < stat0.len() ==> stat0[t] <= n,
                n < TERMINATED_DOC,
                n == doc_id,
                stat0 == old(self).term_stat@,
                self.current_doc_id == doc_id + 1,
                self.sealed_doc_id == old(self).sealed_doc_id,
                self.sealed_doc_id <= self.current_doc_id,
                self.deleted@ == old(self).deleted@.push(false),
                self.doc_lens@ == old(self).doc_lens@.push(vector.spec_doc_len()),
                self.doc_cnt == old(self).doc_cnt + 1,
                self.doc_term_cnt == old(self).doc_term_cnt + vector.spec_doc_len(),
                self.doc_cnt == live_count(self.deleted@, n + 1),
                self.doc_term_cnt == live_len(self.deleted@, self.doc_lens@, n + 1),
            decreases indexes@.len() - k,
        {
            let t = indexes[k];
            while self.term_stat.len() <= t as usize
                invariant
                    t < u32::MAX,
                    k < indexes@.len(),
                    indexes@[k as int] == t,
                    stat0.len() <= self.term_stat@.len() <= u32::MAX,
                    forall|j: int| 0 <= j < k ==> indexes@[j] < self.term_stat@.len(),
                    forall|u: u32|
                        (u as int) < self.term_stat@.len() ==> #[trigger] self.term_stat@[u as int]
                            == stat_after(stat0, indexes@.subrange(0, k as int), u),
                    n == doc_id,
                    self.current_doc_id == doc_id + 1,
                    self.sealed_doc_id == old(self).sealed_doc_id,
                    self.sealed_doc_id <= self.current_doc_id,
                    self.deleted@ == old(self).deleted@.push(false),
                    self.doc_lens@ == old(self).doc_lens@.push(vector.spec_doc_len()),
                    self.doc_cnt == old(self).doc_cnt + 1,
                    self.doc_term_cnt == old(self).doc_term_cnt + vector.spec_doc_len(),
                    self.doc_cnt == live_count(self.deleted@, n + 1),
                    self.doc_term_cnt == live_len(self.deleted@, self.doc_lens@, n + 1),
                decreases t as int + 1 - self.term_stat@.len(),
            {
                let ghost len = self.term_stat@.len();
                proof {
                    let u = len as u32;
                    let sub = indexes@.subrange(0, k as int);
                    if sub.contains(u) {
                        let j = choose|j: int| 0 <= j < sub.len() && sub[j] == u;
                        assert(indexes@[j] < len);
                    }
                    assert(stat_after(stat0, sub, u) == 0);
                }
                self.term_stat.push(0);
                proof {
                    assert forall|u: u32| (u as int) < self.term_stat@.len() implies #[trigger] self.term_stat@[u as int]
                        == stat_after(stat0, indexes@.subrange(0, k as int), u) by {
                        if (u as int) == len {
                            assert(u == len as u32);
                        }
                    }
                }
            }
            let ghost sub0 = indexes@.subrange(0, k as int);
            proof {
                assert(!sub0.contains(t)) by {
                    if sub0.contains(t) {
                        let j = choose|j: int| 0 <= j < sub0.len() && sub0[j] == t;
                        assert(indexes@[j] < indexes@[k as int]);
                    }
                }
                assert(self.term_stat@[t as int] == stat_after(stat0, sub0, t));
                if (t as int) < stat0.len() {
                    assert(stat0[t as int] <= n);
                }
            }
            let ghost before = self.term_stat@;
            self.term_stat.set(t as usize, self.term_stat[t as usize] + 1);
            k += 1;
            proof {
                let sub1 = indexes@.subrange(0, k as int);
                assert(sub1 =~= sub0.push(t));
                assert forall|u: u32| (u as int) < self.term_stat@.len() implies #[trigger] self.term_stat@[u as int]
                    == stat_after(stat0, sub1, u) by {
                    if u == t {
                        assert(sub1[sub0.len() as int] == t);
                        assert(sub1.contains(t));
                    } else {
                        assert(before[u as int] == self.term_stat@[u as int]);
                        assert(before[u as int] == stat_after(stat0, sub0, u));
                        assert(sub1.contains(u) == sub0.contains(u)) by {
                            if sub1.contains(u) {
                                let j = choose|j: int| 0 <= j < sub1.len() && sub1[j] == u;
                                assert(j < sub0.len());
                                assert(sub0[j] == u);
                            }
                            if sub0.contains(u) {
                                let j = choose|j: int| 0 <= j < sub0.len() && sub0[j] == u;
                                assert(sub1[j] == u);
                            }
                        }
                    }
                }
            }
        }
        proof {
            assert(indexes@.subrange(0, k as int) =~= indexes@);
            assert forall|t: int| 0 <= t < self.term_stat@.len() implies self.term_stat@[t]
                <= n + 1 by {
                let u = t as u32;
                assert(self.term_stat@[u as int] == stat_after(stat0, indexes@, u));
                if t < stat0.len() {
                    assert(stat0[t] <= n);
                }
            }
            assert forall|t: int| 0 <= t < self.term_stat@.len() implies #[trigger] self.term_stat@[t]
                == (if t < stat0.len() {
                    stat0[t] as int
                } else {
                    0
                }) + if vector.spec_indexes().contains(t as u32) {
                    1int
                } else {
                    0int
                } by {
                let u = t as u32;
                assert(self.term_stat@[u as int] == stat_after(stat0, indexes@, u));
            }
        }
        Ok(doc_id)
    }

    /// Marks deleted each live document whose entry of `remove` is true,
    /// and takes it out of the counts. Returns how many were marked.
    pub fn bulk_delete(&mut self, remove: &[bool]) -> (r: u32)
        requires
            old(self).wf(),
            remove@.len() == old(self).spec_current_doc_id(),
        ensures
            final(self).wf(),
            final(self).spec_current_doc_id() == old(self).spec_current_doc_id(),
            final(self).spec_sealed_doc_id() == old(self).spec_sealed_doc_id(),
            final(self).spec_doc_lens() == old(self).spec_doc_lens(),
            final(self).spec_term_stat() == old(self).spec_term_stat(),
            forall|i: int|
                0 <= i < remove@.len() ==> #[trigger] final(self).spec_deleted()[i] == (old(self).spec_deleted()[i] || remove@[i]),
            final(self).spec_doc_cnt() + r == old(self).spec_doc_cnt(),
            r == newly_deleted(old(self).spec_deleted(), remove@, remove@.len() as int),
            final(self).spec_doc_term_cnt() + newly_deleted_len(
                old(self).spec_deleted(),
                remove@,
                old(self).spec_doc_lens(),
                remove@.len() as int,
            ) == old(self).spec_doc_term_cnt(),
    {
        let n = self.current_doc_id;
        let ghost deleted0 = self.deleted@;
        let ghost cnt0 = self.doc_cnt;
        let ghost len0 = self.doc_term_cnt;
        let mut removed: u32 = 0;
        let mut i: u32 = 0;
        while i < n
            invariant
                self.wf(),
                self.current_doc_id == n,
                remove@.len() == n,
                i <= n,
                self.term_stat@ == old(self).term_stat@,
                self.doc_lens@ == old(self).doc_lens@,
                self.sealed_doc_id == old(self).sealed_doc_id,
                deleted0 == old(self).deleted@,
                cnt0 == old(self).doc_cnt,
                forall|j: int| 0 <= j < i ==> #[trigger] self.deleted@[j] == (deleted0[j] || remove@[j]),
                forall|j: int| i <= j < n ==> #[trigger] self.deleted@[j] == deleted0[j],
                self.doc_cnt + removed == cnt0,
                len0 == old(self).doc_term_cnt,
                removed == newly_deleted(deleted0, remove@, i as int),
                self.doc_term_cnt + newly_deleted_len(deleted0, remove@, self.doc_lens@, i as int)
                    == len0,
            decreases n - i,
        {
            if !self.deleted[i as usize] && remove[i as usize] {
                proof {
                    lemma_delete_one(self.deleted@, self.doc_lens@, i as int, n as int);
                }
                self.deleted.set(i as usize, true);
                self.doc_cnt = self.doc_cnt - 1;
                self.doc_term_cnt = self.doc_term_cnt - self.doc_lens[i as usize] as u64;
                removed = removed + 1;
            }
            i += 1;
        }
        removed
    }

    /// How many of `postings` are for documents that are not deleted: the
    /// document frequency of their term that vacuum recounts.
    pub fn live_postings(&self, postings: &[(u32, u32)]) -> (r: u32)
        requires
            self.wf(),
            forall|i: int| 0 <= i < postings@.len() ==> postings@[i].0 < self.spec_current_doc_id(),
            postings@.len() <= u32::MAX,
        ensures
            r == live_in(self.spec_deleted(), postings@, postings@.len() as int),
            r <= postings@.len(),
    {
        let mut r: u32 = 0;
        let mut i: usize = 0;
        while i < postings.len()
            invariant
                self.wf(),
                i <= postings@.len(),
                postings@.len() <= u32::MAX,
                forall|j: int| 0 <= j < postings@.len() ==> postings@[j].0 < self.current_doc_id,
                r == live_in(self.deleted@, postings@, i as int),
                r <= i,
            decreases postings@.len() - i,
        {
            if !self.deleted[postings[i].0 as usize] {
                r += 1;
            }
            i += 1;
        }
        r
    }

    /// Recounts the document frequency of every term over the live
    /// documents, from the lists of `w`, which holds every document given
    /// out so far.
    pub fn vacuum_term_stat(&mut self, w: &InvertedWriter)
        requires
            old(self).wf(),
            w.wf(),
            w.finalized(),
            w.docs_below(old(self).spec_current_doc_id()),
        ensures
            final(self).wf(),
            final(self).spec_term_stat().len() == w.spec_term_id_cnt(),
            forall|t: int|
                0 <= t < final(self).spec_term_stat().len() ==> #[trigger] final(self).spec_term_stat()[t]
                    == live_in(
                    old(self).spec_deleted(),
                    w.term_postings(t as u32),
                    w.term_postings(t as u32).len() as int,
                ),
            final(self).spec_current_doc_id() == old(self).spec_current_doc_id(),
            final(self).spec_doc_cnt() == old(self).spec_doc_cnt(),
            final(self).spec_doc_term_cnt() == old(self).spec_doc_term_cnt(),
            final(self).spec_deleted() == old(self).spec_deleted(),
            final(self).spec_sealed_doc_id() == old(self).spec_sealed_doc_id(),
    {
        let cnt = w.term_id_cnt();
        let mut stat: Vec<u32> = Vec::new();
        let mut t: u32 = 0;
        while t < cnt
            invariant
                self.wf(),
                *self == *old(self),
                w.wf(),
                w.finalized(),
                w.docs_below(self.current_doc_id),
                cnt == w.spec_term_id_cnt(),
                t <= cnt,
                stat@.len() == t,
                forall|u: int|
                    0 <= u < t ==> #[trigger] stat@[u] == live_in(
                        self.deleted@,
                        w.term_postings(u as u32),
                        w.term_postings(u as u32).len() as int,
                    ),
                forall|u: int| 0 <= u < t ==> stat@[u] <= self.current_doc_id,
            decreases cnt - t,
        {
            let p = w.postings(t);
            proof {
                w.lemma_postings_ok(t);
                assert(postings_ok(p@, self.current_doc_id as int)) by {
                    assert forall|k: int| 0 <= k < p@.len() implies p@[k].0 < self.current_doc_id by {
                        assert(w.term_postings(t)[k].0 < self.current_doc_id);
                    }
                }
                lemma_postings_count(p@, self.current_doc_id as int);
            }
            let c = self.live_postings(p.as_slice());
            stat.push(c);
            proof {
                assert(stat@[t as int] == live_in(
                    self.deleted@,
                    w.term_postings((t as int) as u32),
                    w.term_postings((t as int) as u32).len() as int,
                ));
            }
            t += 1;
        }
        self.term_stat = stat;
    }

    /// Records that the documents below `doc_id` have been sealed.
    pub fn seal(&mut self, doc_id: u32)
        requires
            old(self).wf(),
            old(self).spec_sealed_doc_id() <= doc_id <= old(self).spec_current_doc_id(),
        ensures
            final(self).wf(),
            final(self).spec_sealed_doc_id() == doc_id,
            final(self).spec_current_doc_id() == old(self).spec_current_doc_id(),
            final(self).spec_doc_cnt() == old(self).spec_doc_cnt(),
            final(self).spec_deleted() == old(self).spec_deleted(),
            final(self).spec_term_stat() == old(self).spec_term_stat(),
    {
        self.sealed_doc_id = doc_id;
    }

    /// Replaces the document frequencies by a recount over the live
    /// documents, as vacuum does after deletes.
    pub fn set_term_stat(&mut self, term_stat: Vec<u32>)
        requires
            old(self).wf(),
            forall|t: int| 0 <= t < term_stat@.len() ==> term_stat@[t] <= old(self).spec_current_doc_id(),
            term_stat@.len() <= u32::MAX,
        ensures
            final(self).wf(),
            final(self).spec_term_stat() == term_stat@,
            final(self).spec_current_doc_id() == old(self).spec_current_doc_id(),
            final(self).spec_doc_cnt() == old(self).spec_doc_cnt(),
            final(self).spec_deleted() == old(self).spec_deleted(),
    {
        self.term_stat = term_stat;
    }
}

/// The frequency of term `t` after the documents of `stat` are joined by
/// one holding the terms `terms`.
pub open spec fn stat_after(stat: Seq<u32>, terms: Seq<u32>, t: u32) -> int {
    (if (t as int) < stat.len() {
        stat[t as int] as int
    } else {
        0
    }) + if terms.contains(t) {
        1int
    } else {
        0int
    }
}

proof fn lemma_prefix_same_lens(deleted: Seq<bool>, a: Seq<u32>, b: Seq<u32>, n: int)
    requires
        0 <= n <= a.len(),
        n <= b.len(),
        forall|j: int| 0 <= j < n ==> a[j] == b[j],
    ensures
        live_len(deleted, a, n) == live_len(deleted, b, n),
    decreases n,
{
    if n > 0 {
        lemma_prefix_same_lens(deleted, a, b, n - 1);
    }
}

}
