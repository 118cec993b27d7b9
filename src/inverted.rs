//! Inverted lists gathered in memory: for each term, the documents that hold
//! it with their term frequencies, kept as variable-length integers with
//! docids stored as gaps.
use crate::vector::Bm25Vector;
use crate::vint::{decode_vint32, encode_vint32, lemma_vint32_round_trip, vint_bytes};
use vstd::prelude::*;

verus! {

/// The docid that stands for "no document"; never a real docid.
pub const TERMINATED_DOC: u32 = 0xffff_ffff;

/// `doc - prev` modulo 2^32.
pub open spec fn doc_gap(doc: u32, prev: u32) -> u32 {
    ((doc as int - prev as int) % 0x1_0000_0000) as u32
}

/// The docid of the last posting of `docs`, or `prev` when there is none.
pub open spec fn last_doc(docs: Seq<(u32, u32)>, prev: u32) -> u32 {
    if docs.len() == 0 {
        prev
    } else {
        docs.last().0
    }
}

/// The bytes that record `docs`: for each, its docid gap from the one
/// before (from `prev` for the first), then its frequency.
pub open spec fn postings_bytes(docs: Seq<(u32, u32)>, prev: u32) -> Seq<u8>
    decreases docs.len(),
{
    if docs.len() == 0 {
        seq![]
    } else {
        vint_bytes(doc_gap(docs[0].0, prev) as nat) + vint_bytes(docs[0].1 as nat)
            + postings_bytes(docs.drop_first(), docs[0].0)
    }
}

/// Docids strictly increasing and below `bound`, frequencies at least one.
pub open spec fn postings_ok(docs: Seq<(u32, u32)>, bound: int) -> bool {
    &&& forall|i: int, j: int| 0 <= i < j < docs.len() ==> docs[i].0 < docs[j].0
    &&& forall|i: int| 0 <= i < docs.len() ==> docs[i].0 < bound
    &&& forall|i: int| 0 <= i < docs.len() ==> docs[i].1 >= 1
}

proof fn lemma_postings_bytes_push(docs: Seq<(u32, u32)>, prev: u32, p: (u32, u32))
    ensures
        postings_bytes(docs.push(p), prev) == postings_bytes(docs, prev) + vint_bytes(
            doc_gap(p.0, last_doc(docs, prev)) as nat,
        ) + vint_bytes(p.1 as nat),
    decreases docs.len(),
{
    if docs.len() == 0 {
        assert(docs.push(p).drop_first() =~= Seq::<(u32, u32)>::empty());
        assert(docs.push(p)[0] == p);
        assert(postings_bytes(Seq::<(u32, u32)>::empty(), p.0) =~= Seq::<u8>::empty());
        assert(postings_bytes(docs.push(p), prev) =~= vint_bytes(doc_gap(p.0, prev) as nat)
            + vint_bytes(p.1 as nat));
    } else {
        let rest = docs.drop_first();
        lemma_postings_bytes_push(rest, docs[0].0, p);
        assert(docs.push(p).drop_first() =~= rest.push(p));
        assert(last_doc(rest, docs[0].0) == last_doc(docs, prev));
        assert(postings_bytes(docs.push(p), prev) =~= postings_bytes(docs, prev) + vint_bytes(
            doc_gap(p.0, last_doc(docs, prev)) as nat,
        ) + vint_bytes(p.1 as nat));
    }
}

/// A strictly increasing sequence of docids below `bound` has fewer than
/// `bound + 1` entries.
pub proof fn lemma_postings_count(docs: Seq<(u32, u32)>, bound: int)
    requires
        postings_ok(docs, bound),
        bound >= 0,
    ensures
        docs.len() <= bound,
{
    if docs.len() > 0 {
        lemma_docid_at_least_index(docs, bound, docs.len() - 1);
        assert(docs[docs.len() - 1].0 < bound);
    }
}

proof fn lemma_docid_at_least_index(docs: Seq<(u32, u32)>, bound: int, i: int)
    requires
        postings_ok(docs, bound),
        0 <= i < docs.len(),
    ensures
        docs[i].0 >= i,
    decreases i,
{
    if i > 0 {
        lemma_docid_at_least_index(docs, bound, i - 1);
        assert(docs[i - 1].0 < docs[i].0);
    }
}

/// The postings of one term: docid gaps and frequencies as variable-length
/// integers. The frequency of the newest document is written when it closes.
struct TFRecorder {
    buffer: Vec<u8>,
    current_doc: u32,
    current_tf: u32,
    total_docs: u32,
    closed: Ghost<Seq<(u32, u32)>>,
}

impl TFRecorder {
    /// Every posting, the open document included.
    spec fn postings(&self) -> Seq<(u32, u32)> {
        if self.current_tf > 0 {
            self.closed@.push((self.current_doc, self.current_tf))
        } else {
            self.closed@
        }
    }

    spec fn wf(&self) -> bool {
        &&& postings_ok(self.postings(), TERMINATED_DOC as int)
        &&& self.total_docs == self.postings().len()
        &&& self.current_tf == 0 ==> self.current_doc == last_doc(self.closed@, TERMINATED_DOC)
        &&& self.buffer@ == postings_bytes(self.closed@, TERMINATED_DOC) + (if self.current_tf > 0 {
            vint_bytes(doc_gap(self.current_doc, last_doc(self.closed@, TERMINATED_DOC)) as nat)
        } else {
            seq![]
        })
    }

    fn new() -> (r: Self)
        ensures
            r.wf(),
            r.postings().len() == 0,
            r.current_tf == 0,
    {
        let r = Self {
            buffer: Vec::new(),
            current_doc: TERMINATED_DOC,
            current_tf: 0,
            total_docs: 0,
            closed: Ghost(Seq::empty()),
        };
        assert(r.buffer@ =~= postings_bytes(r.closed@, TERMINATED_DOC));
        r
    }

    fn current_doc(&self) -> (r: u32)
        ensures
            r == self.current_doc,
    {
        self.current_doc
    }

    /// Starts a document: writes its docid gap.
    fn new_doc(&mut self, doc_id: u32)
        requires
            old(self).total_docs < u32::MAX,
        ensures
            final(self).buffer@ == old(self).buffer@ + vint_bytes(
                doc_gap(doc_id, old(self).current_doc) as nat,
            ),
            final(self).current_doc == doc_id,
            final(self).current_tf == old(self).current_tf,
            final(self).total_docs == old(self).total_docs + 1,
            final(self).closed == old(self).closed,
    {
        let delta: u32 = ((doc_id as u64 + 0x1_0000_0000 - self.current_doc as u64) % 0x1_0000_0000) as u32;
        self.total_docs += 1;
        self.current_doc = doc_id;
        encode_vint32(delta, &mut self.buffer);
    }

    /// Adds `count` to the frequency of the open document.
    fn record(&mut self, count: u32)
        requires
            old(self).current_tf + count <= u32::MAX,
        ensures
            final(self).current_tf == old(self).current_tf + count,
            final(self).buffer == old(self).buffer,
            final(self).current_doc == old(self).current_doc,
            final(self).total_docs == old(self).total_docs,
            final(self).closed == old(self).closed,
    {
        self.current_tf += count;
    }

    /// Writes the frequency of the open document, if there is one.
    fn try_close_doc(&mut self)
        requires
            old(self).wf(),
        ensures
            final(self).wf(),
            final(self).postings() == old(self).postings(),
            final(self).current_tf == 0,
    {
        if self.current_tf == 0 {
            return;
        }
        let ghost p = (self.current_doc, self.current_tf);
        proof {
            lemma_postings_bytes_push(self.closed@, TERMINATED_DOC, p);
        }
        encode_vint32(self.current_tf, &mut self.buffer);
        self.current_tf = 0;
        self.closed = Ghost(self.closed@.push(p));
        assert(self.buffer@ =~= postings_bytes(self.closed@, TERMINATED_DOC));
    }

    /// The postings, decoded from the buffer; every document must be closed.
    #[verifier::spinoff_prover]
    #[verifier::rlimit(40)]
    fn iter(&self) -> (r: Vec<(u32, u32)>)
        requires
            self.wf(),
            self.current_tf == 0,
        ensures
            r@ == self.closed@,
    {
        let ghost docs = self.closed@;
        let mut out: Vec<(u32, u32)> = Vec::new();
        let mut doc_id: u32 = TERMINATED_DOC;
        let mut buffer: &[u8] = self.buffer.as_slice();
        assert(buffer@ == postings_bytes(docs, TERMINATED_DOC));
        let ghost mut i: int = 0;
        assert(docs.subrange(0, docs.len() as int) =~= docs);
        assert(docs.subrange(0, 0) =~= Seq::<(u32, u32)>::empty());
        while buffer.len() > 0
            invariant
                0 <= i <= docs.len(),
                out@ == docs.subrange(0, i),
                doc_id == last_doc(docs.subrange(0, i), TERMINATED_DOC),
                buffer@ == postings_bytes(docs.subrange(i, docs.len() as int), doc_id),
            decreases buffer@.len(),
        {
            let ghost rest = docs.subrange(i, docs.len() as int);
            proof {
                if rest.len() == 0 {
                    assert(buffer@.len() == 0);
                }
            }
            let ghost p = rest[0];
            let ghost tail = postings_bytes(rest.drop_first(), p.0);
            proof {
                assert(buffer@ =~= vint_bytes(doc_gap(p.0, doc_id) as nat) + (vint_bytes(
                    p.1 as nat,
                ) + tail));
                lemma_vint32_round_trip(doc_gap(p.0, doc_id), vint_bytes(p.1 as nat) + tail);
                lemma_vint32_round_trip(p.1, tail);
            }
            let delta_doc_id = decode_vint32(&mut buffer);
            let tf = decode_vint32(&mut buffer);
            doc_id = ((doc_id as u64 + delta_doc_id as u64) % 0x1_0000_0000) as u32;
            out.push((doc_id, tf));
            proof {
                assert(doc_id == p.0);
                assert(rest.drop_first() =~= docs.subrange(i + 1, docs.len() as int));
                i = i + 1;
                assert(out@ =~= docs.subrange(0, i));
            }
        }
        proof {
            if i < docs.len() {
                assert(postings_bytes(docs.subrange(i, docs.len() as int), doc_id).len() > 0);
            }
        }
        assert(out@ =~= docs);
        out
    }
}

/// Something that receives inverted lists term by term, in term id order.
pub trait InvertedSerialize {
    /// The calls received so far, in order.
    spec fn calls(&self) -> Seq<SerializeCall>;

    /// Starts the list of the next term, which holds `doc_count` documents.
    fn new_term(&mut self, doc_count: u32)
        ensures
            final(self).calls() == old(self).calls().push(SerializeCall::NewTerm(doc_count)),
    ;

    /// Adds one posting to the current list.
    fn write_doc(&mut self, doc_id: u32, tf: u32)
        ensures
            final(self).calls() == old(self).calls().push(SerializeCall::WriteDoc(doc_id, tf)),
    ;

    /// Ends the current list.
    fn close_term(&mut self)
        ensures
            final(self).calls() == old(self).calls().push(SerializeCall::CloseTerm),
    ;
}

/// One call received by an `InvertedSerialize`.
#[derive(Clone, Copy, Debug, PartialEq, Eq, Structural)]
pub enum SerializeCall {
    NewTerm(u32),
    WriteDoc(u32, u32),
    CloseTerm,
}

/// The calls that hand over one term's list.
pub open spec fn term_calls(docs: Seq<(u32, u32)>) -> Seq<SerializeCall> {
    seq![SerializeCall::NewTerm(docs.len() as u32)] + Seq::new(
        docs.len(),
        |k: int| SerializeCall::WriteDoc(docs[k].0, docs[k].1),
    ) + seq![SerializeCall::CloseTerm]
}

/// The posting lists of each term, as they are handed over.
pub struct TermLists {
    lists: Vec<Vec<(u32, u32)>>,
    log: Ghost<Seq<SerializeCall>>,
}

impl TermLists {
    pub fn new() -> (r: Self)
        ensures
            r.calls().len() == 0,
            r.spec_lists().len() == 0,
    {
        TermLists { lists: Vec::new(), log: Ghost(Seq::empty()) }
    }

    /// The lists received, one per `new_term`.
    pub closed spec fn spec_lists(&self) -> Seq<Seq<(u32, u32)>> {
        Seq::new(self.lists@.len(), |i: int| self.lists@[i]@)
    }

    /// The number of lists received.
    pub fn len(&self) -> (r: usize)
        ensures
            r == self.spec_lists().len(),
    {
        self.lists.len()
    }

    /// List `i`.
    pub fn list(&self, i: usize) -> (r: &[(u32, u32)])
        requires
            i < self.spec_lists().len(),
        ensures
            r@ == self.spec_lists()[i as int],
    {
        self.lists[i].as_slice()
    }
}

impl InvertedSerialize for TermLists {
    closed spec fn calls(&self) -> Seq<SerializeCall> {
        self.log@
    }

    fn new_term(&mut self, doc_count: u32) {
        self.lists.push(Vec::new());
        self.log = Ghost(self.log@.push(SerializeCall::NewTerm(doc_count)));
    }

    fn write_doc(&mut self, doc_id: u32, tf: u32) {
        let n = self.lists.len();
        if n > 0 {
            let mut last: Vec<(u32, u32)> = Vec::new();
            self.lists.set_and_swap(n - 1, &mut last);
            last.push((doc_id, tf));
            self.lists.set(n - 1, last);
        }
        self.log = Ghost(self.log@.push(SerializeCall::WriteDoc(doc_id, tf)));
    }

    fn close_term(&mut self) {
        self.log = Ghost(self.log@.push(SerializeCall::CloseTerm));
    }
}

/// Inverted lists in memory, keyed by term id.
pub struct InvertedWriter {
    term_ids: Vec<u32>,
    recorders: Vec<TFRecorder>,
}

impl InvertedWriter {
    /// The postings of `term_id`, open documents included.
    pub closed spec fn term_postings(&self, term_id: u32) -> Seq<(u32, u32)> {
        if exists|i: int| 0 <= i < self.term_ids@.len() && self.term_ids@[i] == term_id {
            let i = choose|i: int| 0 <= i < self.term_ids@.len() && self.term_ids@[i] == term_id;
            self.recorders@[i].postings()
        } else {
            seq![]
        }
    }

    /// Whether `term_id` has a list (possibly one that has not been closed).
    pub closed spec fn has_term(&self, term_id: u32) -> bool {
        exists|i: int| 0 <= i < self.term_ids@.len() && self.term_ids@[i] == term_id
    }

    /// One more than the largest term id with a list, or 0.
    pub closed spec fn spec_term_id_cnt(&self) -> nat {
        if self.term_ids@.len() == 0 {
            0
        } else {
            self.term_ids@.last() as nat + 1
        }
    }

    /// Every document has been closed.
    pub closed spec fn finalized(&self) -> bool {
        forall|i: int| 0 <= i < self.recorders@.len() ==> #[trigger] self.recorders@[i].current_tf == 0
    }

    pub closed spec fn wf(&self) -> bool {
        &&& self.term_ids@.len() == self.recorders@.len()
        &&& forall|i: int, j: int|
            0 <= i < j < self.term_ids@.len() ==> self.term_ids@[i] < self.term_ids@[j]
        &&& forall|i: int| 0 <= i < self.term_ids@.len() ==> self.term_ids@[i] < u32::MAX
        &&& forall|i: int| 0 <= i < self.recorders@.len() ==> #[trigger] self.recorders@[i].wf()
        &&& forall|i: int|
            0 <= i < self.recorders@.len() ==> #[trigger] self.recorders@[i].postings().len() > 0
    }

    /// Every posting of every term is for a docid below `doc_id`.
    pub open spec fn docs_below(&self, doc_id: u32) -> bool {
        forall|t: u32, k: int|
            0 <= k < self.term_postings(t).len() ==> #[trigger] self.term_postings(t)[k].0 < doc_id
    }

    pub fn new() -> (r: Self)
        ensures
            r.wf(),
            r.finalized(),
            forall|t: u32| r.term_postings(t) == Seq::<(u32, u32)>::empty(),
            r.spec_term_id_cnt() == 0,
    {
        Self { term_ids: Vec::new(), recorders: Vec::new() }
    }

    /// The list of the term at position `i` is its recorder's.
    proof fn lemma_term_at(&self, i: int)
        requires
            self.wf(),
            0 <= i < self.term_ids@.len(),
        ensures
            self.has_term(self.term_ids@[i]),
            self.term_postings(self.term_ids@[i]) == self.recorders@[i].postings(),
    {
        let t = self.term_ids@[i];
        let j = choose|j: int| 0 <= j < self.term_ids@.len() && self.term_ids@[j] == t;
        if j < i {
            assert(self.term_ids@[j] < self.term_ids@[i]);
        } else if j > i {
            assert(self.term_ids@[i] < self.term_ids@[j]);
        }
    }

    /// Every list holds strictly increasing docids below the reserved one,
    /// with frequencies of at least one.
    pub proof fn lemma_postings_ok(&self, t: u32)
        requires
            self.wf(),
        ensures
            postings_ok(self.term_postings(t), TERMINATED_DOC as int),
    {
        if self.has_term(t) {
            let i = choose|i: int| 0 <= i < self.term_ids@.len() && self.term_ids@[i] == t;
            self.lemma_term_at(i);
            assert(self.recorders@[i].wf());
        }
    }

    /// The position of the first term id that is at least `term_id`.
    fn position(&self, term_id: u32) -> (r: usize)
        requires
            self.wf(),
        ensures
            r <= self.term_ids@.len(),
            forall|i: int| 0 <= i < r ==> self.term_ids@[i] < term_id,
            forall|i: int| r <= i < self.term_ids@.len() ==> self.term_ids@[i] >= term_id,
    {
        let mut lo: usize = 0;
        let mut hi: usize = self.term_ids.len();
        while lo < hi
            invariant
                self.wf(),
                lo <= hi <= self.term_ids@.len(),
                forall|i: int| 0 <= i < lo ==> self.term_ids@[i] < term_id,
                forall|i: int| hi <= i < self.term_ids@.len() ==> self.term_ids@[i] >= term_id,
            decreases hi - lo,
        {
            let mid = lo + (hi - lo) / 2;
            if self.term_ids[mid] < term_id {
                lo = mid + 1;
            } else {
                hi = mid;
            }
        }
        lo
    }

    /// Adds a posting to the list of `term_id`.
    fn add(&mut self, term_id: u32, doc_id: u32, tf: u32)
        requires
            old(self).wf(),
            term_id < u32::MAX,
            doc_id < TERMINATED_DOC,
            tf >= 1,
            forall|k: int|
                0 <= k < old(self).term_postings(term_id).len() ==> old(self).term_postings(
                    term_id,
                )[k].0 < doc_id,
        ensures
            final(self).wf(),
            final(self).term_postings(term_id) == old(self).term_postings(term_id).push(
                (doc_id, tf),
            ),
            final(self).has_term(term_id),
            forall|t: u32|
                t != term_id ==> final(self).term_postings(t) == old(self).term_postings(t)
                    && final(self).has_term(t) == old(self).has_term(t),
            final(self).finalized() == false,
            final(self).spec_term_id_cnt() == if old(self).spec_term_id_cnt() > term_id {
                old(self).spec_term_id_cnt()
            } else {
                (term_id + 1) as nat
            },
    {
        let ghost s0 = *self;
        let ghost ids0 = self.term_ids@;
        let ghost recs0 = self.recorders@;
        let ghost p0 = s0.term_postings(term_id);
        let pos = self.position(term_id);
        let fresh = pos == self.term_ids.len() || self.term_ids[pos] != term_id;
        proof {
            if !fresh {
                s0.lemma_term_at(pos as int);
            } else {
                assert(!s0.has_term(term_id)) by {
                    if s0.has_term(term_id) {
                        let j = choose|j: int| 0 <= j < ids0.len() && ids0[j] == term_id;
                        if j < pos {
                            assert(ids0[j] < term_id);
                        } else {
                            assert(ids0[pos as int] >= term_id);
                            assert(ids0[pos as int] != term_id);
                            if j > pos {
                                assert(ids0[pos as int] < ids0[j]);
                            }
                        }
                    }
                }
            }
        }
        if fresh {
            self.term_ids.insert(pos, term_id);
            self.recorders.insert(pos, TFRecorder::new());
        }
        let ghost ids1 = self.term_ids@;
        let ghost recs1 = self.recorders@;
        proof {
            if fresh {
                assert forall|i: int, j: int| 0 <= i < j < ids1.len() implies ids1[i] < ids1[j] by {
                    if i < pos && j > pos {
                        assert(ids0[i] < term_id);
                        assert(ids0[j - 1] >= term_id);
                    } else if i == pos {
                        assert(ids0[j - 1] >= term_id);
                        assert(ids0[j - 1] != term_id) by {
                            if ids0[j - 1] == term_id {
                                assert(s0.has_term(term_id));
                            }
                        }
                    } else if j == pos {
                        assert(ids0[i] < term_id);
                    } else if i > pos {
                        assert(ids0[i - 1] < ids0[j - 1]);
                    } else {
                        assert(ids0[i] < ids0[j]);
                    }
                }
            }
            assert(recs1[pos as int].postings() == p0);
            assert(recs1[pos as int].wf());
            assert(ids1[pos as int] == term_id);
        }
        let mut rec = TFRecorder::new();
        self.recorders.set_and_swap(pos, &mut rec);
        proof {
            lemma_postings_count(p0, doc_id as int);
        }
        if rec.current_doc() != doc_id {
            rec.try_close_doc();
            rec.new_doc(doc_id);
        } else {
            proof {
                if rec.current_tf > 0 {
                    assert(rec.postings().last().0 < doc_id);
                } else if rec.closed@.len() > 0 {
                    assert(rec.closed@.last().0 == rec.postings()[rec.closed@.len() - 1].0);
                }
            }
        }
        rec.record(tf);
        let ghost rec2 = rec;
        proof {
            assert(rec2.postings() =~= p0.push((doc_id, tf)));
            assert(rec2.buffer@ =~= postings_bytes(rec2.closed@, TERMINATED_DOC) + vint_bytes(
                doc_gap(rec2.current_doc, last_doc(rec2.closed@, TERMINATED_DOC)) as nat,
            ));
            assert(rec2.wf());
        }
        self.recorders.set(pos, rec);
        proof {
            let s2 = *self;
            let recs2 = self.recorders@;
            assert(recs2 == recs1.update(pos as int, rec2));
            assert forall|i: int| 0 <= i < recs2.len() implies #[trigger] recs2[i].wf() && recs2[i].postings().len() > 0 by {
                if i != pos {
                    if fresh && i > pos {
                        assert(recs2[i] == recs0[i - 1]);
                    } else {
                        assert(recs2[i] == recs0[i]);
                    }
                }
            }
            assert(s2.wf());
            s2.lemma_term_at(pos as int);
            assert forall|t: u32| t != term_id implies s2.term_postings(t) == s0.term_postings(t)
                && s2.has_term(t) == s0.has_term(t) by {
                if s0.has_term(t) {
                    let i = choose|i: int| 0 <= i < ids0.len() && ids0[i] == t;
                    s0.lemma_term_at(i);
                    let i2 = if fresh && i >= pos { i + 1 } else { i };
                    assert(ids1[i2] == t);
                    s2.lemma_term_at(i2);
                } else if s2.has_term(t) {
                    let i = choose|i: int| 0 <= i < ids1.len() && ids1[i] == t;
                    if fresh && i > pos {
                        assert(ids0[i - 1] == t);
                    } else if i != pos {
                        assert(ids0[i] == t);
                    }
                }
            }
            assert(!s2.finalized()) by {
                assert(s2.recorders@[pos as int].current_tf > 0);
            }
        }
    }

    /// Records one document: each of its terms gets the posting
    /// `(doc_id, tf)`. Docids must come in increasing order.
    pub fn insert(&mut self, doc_id: u32, vector: &Bm25Vector)
        requires
            old(self).wf(),
            vector.wf(),
            doc_id < TERMINATED_DOC,
            old(self).docs_below(doc_id),
            forall|k: int| 0 <= k < vector.spec_indexes().len() ==> vector.spec_indexes()[k] < u32::MAX,
        ensures
            final(self).wf(),
            final(self).docs_below((doc_id + 1) as u32),
            forall|k: int|
                0 <= k < vector.spec_indexes().len() ==> #[trigger] final(self).term_postings(
                    vector.spec_indexes()[k],
                ) == old(self).term_postings(vector.spec_indexes()[k]).push(
                    (doc_id, vector.spec_values()[k]),
                ),
            forall|t: u32|
                !vector.spec_indexes().contains(t) ==> #[trigger] final(self).term_postings(t)
                    == old(self).term_postings(t),
            vector.spec_indexes().len() == 0 ==> final(self).finalized() == old(self).finalized(),
            vector.spec_indexes().len() > 0 ==> !final(self).finalized(),
            final(self).spec_term_id_cnt() == if vector.spec_indexes().len() == 0
                || old(self).spec_term_id_cnt() > vector.spec_indexes().last() {
                old(self).spec_term_id_cnt()
            } else {
                (vector.spec_indexes().last() + 1) as nat
            },
    {
        let indexes = vector.indexes();
        let values = vector.values();
        let ghost s0 = *self;
        let mut k: usize = 0;
        while k < indexes.len()
            invariant
                self.wf(),
                vector.wf(),
                indexes@ == vector.spec_indexes(),
                values@ == vector.spec_values(),
                k <= indexes@.len(),
                doc_id < TERMINATED_DOC,
                s0.docs_below(doc_id),
                forall|j: int| 0 <= j < indexes@.len() ==> indexes@[j] < u32::MAX,
                forall|j: int|
                    0 <= j < k ==> #[trigger] self.term_postings(indexes@[j]) == s0.term_postings(
                        indexes@[j],
                    ).push((doc_id, values@[j])),
                forall|t: u32|
                    !indexes@.subrange(0, k as int).contains(t) ==> #[trigger] self.term_postings(t)
                        == s0.term_postings(t),
                k == 0 ==> self.finalized() == s0.finalized() && *self == s0,
                k > 0 ==> !self.finalized(),
                self.spec_term_id_cnt() == if k == 0 || s0.spec_term_id_cnt() > indexes@[k - 1] {
                    s0.spec_term_id_cnt()
                } else {
                    (indexes@[k - 1] + 1) as nat
                },
            decreases indexes@.len() - k,
        {
            let t = indexes[k];
            let ghost s1 = *self;
            proof {
                assert(!indexes@.subrange(0, k as int).contains(t)) by {
                    let sub = indexes@.subrange(0, k as int);
                    if sub.contains(t) {
                        let j = choose|j: int| 0 <= j < sub.len() && sub[j] == t;
                        assert(indexes@[j] < indexes@[k as int]);
                    }
                }
                assert forall|m: int| 0 <= m < self.term_postings(t).len() implies self.term_postings(
                    t,
                )[m].0 < doc_id by {
                    assert(s0.term_postings(t)[m].0 < doc_id);
                }
                if k > 0 {
                    assert(indexes@[k - 1] < t);
                }
            }
            self.add(t, doc_id, values[k]);
            k += 1;
            proof {
                assert forall|j: int| 0 <= j < k implies #[trigger] self.term_postings(indexes@[j])
                    == s0.term_postings(indexes@[j]).push((doc_id, values@[j])) by {
                    if j < k - 1 {
                        assert(indexes@[j] < indexes@[k - 1]);
                        assert(s1.term_postings(indexes@[j]) == s0.term_postings(indexes@[j]).push(
                            (doc_id, values@[j]),
                        ));
                    }
                }
                assert forall|u: u32| !indexes@.subrange(0, k as int).contains(u) implies #[trigger] self.term_postings(u)
                    == s0.term_postings(u) by {
                    assert(u != t) by {
                        assert(indexes@.subrange(0, k as int)[k - 1] == t);
                    }
                    let sub = indexes@.subrange(0, k - 1);
                    if sub.contains(u) {
                        let j = choose|j: int| 0 <= j < sub.len() && sub[j] == u;
                        assert(indexes@.subrange(0, k as int)[j] == u);
                    }
                }
            }
        }
        proof {
            assert(indexes@.subrange(0, k as int) =~= indexes@);
            assert forall|u: u32, m: int| 0 <= m < self.term_postings(u).len() implies #[trigger] self.term_postings(u)[m].0 < (doc_id + 1) as u32 by {
                if indexes@.contains(u) {
                    let j = choose|j: int| 0 <= j < indexes@.len() && indexes@[j] == u;
                    assert(self.term_postings(indexes@[j]) == s0.term_postings(indexes@[j]).push(
                        (doc_id, values@[j]),
                    ));
                    if m < s0.term_postings(u).len() {
                        assert(s0.term_postings(u)[m].0 < doc_id);
                    }
                } else {
                    assert(s0.term_postings(u)[m].0 < doc_id);
                }
            }
        }
    }

    /// Closes the open document of every term.
    pub fn finalize(&mut self)
        requires
            old(self).wf(),
        ensures
            final(self).wf(),
            final(self).finalized(),
            forall|t: u32| #[trigger] final(self).term_postings(t) == old(self).term_postings(t),
            forall|t: u32| #[trigger] final(self).has_term(t) == old(self).has_term(t),
            final(self).spec_term_id_cnt() == old(self).spec_term_id_cnt(),
    {
        let ghost s0 = *self;
        let mut i: usize = 0;
        while i < self.recorders.len()
            invariant
                self.wf(),
                self.term_ids@ == s0.term_ids@,
                self.recorders@.len() == s0.recorders@.len(),
                i <= self.recorders@.len(),
                forall|j: int|
                    0 <= j < self.recorders@.len() ==> #[trigger] self.recorders@[j].postings()
                        == s0.recorders@[j].postings(),
                forall|j: int| 0 <= j < i ==> #[trigger] self.recorders@[j].current_tf == 0,
            decreases self.recorders@.len() - i,
        {
            let mut rec = TFRecorder::new();
            self.recorders.set_and_swap(i, &mut rec);
            rec.try_close_doc();
            self.recorders.set(i, rec);
            i += 1;
        }
        proof {
            let s2 = *self;
            assert forall|t: u32| #[trigger] s2.term_postings(t) == s0.term_postings(t) && s2.has_term(
                t,
            ) == s0.has_term(t) by {
                if s0.has_term(t) {
                    let j = choose|j: int| 0 <= j < s0.term_ids@.len() && s0.term_ids@[j] == t;
                    s0.lemma_term_at(j);
                    s2.lemma_term_at(j);
                }
            }
            assert(forall|t: u32| #[trigger] s2.has_term(t) == s0.has_term(t));
        }
    }

    /// The postings of `term_id` in docid order; empty where the term has
    /// none. Every document must have been closed.
    pub fn postings(&self, term_id: u32) -> (r: Vec<(u32, u32)>)
        requires
            self.wf(),
            self.finalized(),
        ensures
            r@ == self.term_postings(term_id),
    {
        let pos = self.position(term_id);
        if pos < self.term_ids.len() && self.term_ids[pos] == term_id {
            proof {
                self.lemma_term_at(pos as int);
            }
            self.recorders[pos].iter()
        } else {
            proof {
                if self.has_term(term_id) {
                    let j = choose|j: int| 0 <= j < self.term_ids@.len() && self.term_ids@[j] == term_id;
                    if j > pos {
                        assert(self.term_ids@[pos as int] < self.term_ids@[j]);
                    }
                }
            }
            Vec::new()
        }
    }

    /// One more than the largest term id with a list, or 0 when there is none.
    pub fn term_id_cnt(&self) -> (r: u32)
        requires
            self.wf(),
        ensures
            r == self.spec_term_id_cnt(),
    {
        if self.term_ids.len() == 0 {
            0
        } else {
            self.term_ids[self.term_ids.len() - 1] + 1
        }
    }

    /// The number of documents of each term id below `term_id_cnt()`.
    pub fn term_stat(&self) -> (r: Vec<u32>)
        requires
            self.wf(),
        ensures
            r@.len() == self.spec_term_id_cnt(),
            forall|t: int| 0 <= t < r@.len() ==> r@[t] == self.term_postings(t as u32).len(),
    {
        let cnt = self.term_id_cnt();
        let mut r: Vec<u32> = Vec::new();
        let mut i: usize = 0;
        let mut t: u32 = 0;
        while t < cnt
            invariant
                self.wf(),
                cnt == self.spec_term_id_cnt(),
                t <= cnt,
                i <= self.term_ids@.len(),
                r@.len() == t,
                forall|j: int| 0 <= j < i ==> self.term_ids@[j] < t,
                forall|j: int| i <= j < self.term_ids@.len() ==> self.term_ids@[j] >= t,
                forall|u: int| 0 <= u < t ==> r@[u] == self.term_postings(u as u32).len(),
            decreases cnt - t,
        {
            if i < self.term_ids.len() && self.term_ids[i] == t {
                proof {
                    self.lemma_term_at(i as int);
                    assert(self.recorders@[i as int].wf());
                }
                r.push(self.recorders[i].total_docs);
                assert(r@[t as int] == self.term_postings((t as int) as u32).len());
                i += 1;
                proof {
                    if i < self.term_ids@.len() {
                        assert(self.term_ids@[i - 1] < self.term_ids@[i as int]);
                    }
                }
            } else {
                proof {
                    assert(!self.has_term(t)) by {
                        if self.has_term(t) {
                            let j = choose|j: int|
                                0 <= j < self.term_ids@.len() && self.term_ids@[j] == t;
                            if j > i {
                                assert(self.term_ids@[i as int] < self.term_ids@[j]);
                            } else if j < i {
                                assert(self.term_ids@[j] < t);
                            }
                        }
                    }
                }
                r.push(0);
                assert(r@[t as int] == self.term_postings((t as int) as u32).len());
            }
            t += 1;
        }
        r
    }

    /// The calls that hand over the lists of the term ids below `t`, in
    /// order; a term id without a list is handed over as an empty list.
    pub open spec fn serialized_calls(&self, t: nat) -> Seq<SerializeCall>
        decreases t,
    {
        if t == 0 {
            seq![]
        } else {
            self.serialized_calls((t - 1) as nat) + term_calls(self.term_postings((t - 1) as u32))
        }
    }

    /// Hands every list to `s` in term id order; a term id below
    /// `term_id_cnt()` without a list is handed over as an empty list.
    pub fn serialize<I: InvertedSerialize>(&self, s: &mut I)
        requires
            self.wf(),
            self.finalized(),
        ensures
            final(s).calls() == old(s).calls() + self.serialized_calls(self.spec_term_id_cnt()),
    {
        let ghost c0 = s.calls();
        let mut last_term_id: u32 = 0;
        let mut i: usize = 0;
        assert(c0 + self.serialized_calls(0) =~= c0);
        while i < self.term_ids.len()
            invariant
                self.wf(),
                self.finalized(),
                i <= self.term_ids@.len(),
                i > 0 ==> last_term_id == self.term_ids@[i - 1] + 1,
                i == 0 ==> last_term_id == 0,
                s.calls() == c0 + self.serialized_calls(last_term_id as nat),
            decreases self.term_ids@.len() - i,
        {
            let term_id = self.term_ids[i];
            proof {
                if i > 0 {
                    assert(self.term_ids@[i - 1] < self.term_ids@[i as int]);
                }
            }
            let mut gap: u32 = last_term_id;
            while gap < term_id
                invariant
                    self.wf(),
                    last_term_id <= gap <= term_id,
                    term_id == self.term_ids@[i as int],
                    i < self.term_ids@.len(),
                    i > 0 ==> last_term_id == self.term_ids@[i - 1] + 1,
                    s.calls() == c0 + self.serialized_calls(gap as nat),
                decreases term_id - gap,
            {
                proof {
                    assert(!self.has_term(gap)) by {
                        if self.has_term(gap) {
                            let j = choose|j: int| 0 <= j < self.term_ids@.len() && self.term_ids@[j] == gap;
                            if j < i {
                                if j < i - 1 {
                                    assert(self.term_ids@[j] < self.term_ids@[i - 1]);
                                }
                            } else if j > i {
                                assert(self.term_ids@[i as int] < self.term_ids@[j]);
                            }
                        }
                    }
                    assert(self.term_postings(gap) =~= Seq::<(u32, u32)>::empty());
                }
                s.new_term(0);
                s.close_term();
                proof {
                    let e = Seq::<(u32, u32)>::empty();
                    assert(term_calls(e) =~= seq![SerializeCall::NewTerm(0), SerializeCall::CloseTerm]);
                    assert(self.serialized_calls((gap + 1) as nat) == self.serialized_calls(gap as nat) + term_calls(self.term_postings(gap)));
                    assert(s.calls() =~= c0 + self.serialized_calls((gap + 1) as nat));
                }
                gap += 1;
            }
            let rec = &self.recorders[i];
            proof {
                self.lemma_term_at(i as int);
                assert(rec.wf());
                assert(rec.current_tf == 0);
            }
            let ghost tp = self.term_postings(term_id);
            let ghost base = s.calls();
            s.new_term(rec.total_docs);
            let docs = rec.iter();
            assert(docs@ == tp);
            let mut k: usize = 0;
            while k < docs.len()
                invariant
                    k <= docs@.len(),
                    docs@ == tp,
                    s.calls() == base.push(SerializeCall::NewTerm(tp.len() as u32)) + Seq::new(
                        k as nat,
                        |m: int| SerializeCall::WriteDoc(tp[m].0, tp[m].1),
                    ),
                decreases docs@.len() - k,
            {
                let (doc_id, tf) = docs[k];
                s.write_doc(doc_id, tf);
                k += 1;
                assert(s.calls() =~= base.push(SerializeCall::NewTerm(tp.len() as u32)) + Seq::new(
                    k as nat,
                    |m: int| SerializeCall::WriteDoc(tp[m].0, tp[m].1),
                ));
            }
            s.close_term();
            proof {
                assert(self.serialized_calls((term_id + 1) as nat) == self.serialized_calls(term_id as nat) + term_calls(tp));
                assert(s.calls() =~= c0 + self.serialized_calls((term_id + 1) as nat));
            }
            last_term_id = term_id + 1;
            i += 1;
        }
        proof {
            if self.term_ids@.len() > 0 {
                assert(self.term_ids@.last() == self.term_ids@[self.term_ids@.len() - 1]);
            }
        }
    }
}

}