//! Sparse document vectors: sorted unique term ids, each with its frequency.
use vstd::prelude::*;

verus! {

/// The sum of the values of `s`.
pub open spec fn seq_sum(s: Seq<u32>) -> nat
    decreases s.len(),
{
    if s.len() == 0 {
        0
    } else {
        seq_sum(s.drop_last()) + s.last() as nat
    }
}

/// A tokenized document: `indexes` strictly increasing, `values` the
/// matching frequencies, each at least one, and `doc_len` their sum.
pub struct Bm25Vector {
    doc_len: u32,
    indexes: Vec<u32>,
    values: Vec<u32>,
}

impl Bm25Vector {
    pub closed spec fn spec_doc_len(&self) -> u32 {
        self.doc_len
    }

    pub closed spec fn spec_indexes(&self) -> Seq<u32> {
        self.indexes@
    }

    pub closed spec fn spec_values(&self) -> Seq<u32> {
        self.values@
    }

    pub open spec fn valid_parts(doc_len: u32, indexes: Seq<u32>, values: Seq<u32>) -> bool {
        &&& indexes.len() == values.len()
        &&& forall|i: int, j: int| 0 <= i < j < indexes.len() ==> indexes[i] < indexes[j]
        &&& forall|i: int| 0 <= i < values.len() ==> values[i] >= 1
        &&& seq_sum(values) == doc_len as nat
    }

    pub open spec fn wf(&self) -> bool {
        Self::valid_parts(self.spec_doc_len(), self.spec_indexes(), self.spec_values())
    }

    /// Builds a vector from its parts, or `None` where they do not form one.
    pub fn new(doc_len: u32, indexes: Vec<u32>, values: Vec<u32>) -> (r: Option<Self>)
        ensures
            r is Some <==> Self::valid_parts(doc_len, indexes@, values@),
            r matches Some(v) ==> v.spec_doc_len() == doc_len && v.spec_indexes() == indexes@
                && v.spec_values() == values@,
    {
        if indexes.len() != values.len() {
            return None;
        }
        let mut sum: u64 = 0;
        let mut i: usize = 0;
        while i < values.len()
            invariant
                i <= values.len(),
                indexes@.len() == values@.len(),
                sum == seq_sum(values@.subrange(0, i as int)),
                sum <= 0xffff_ffff,
                forall|j: int| 0 <= j < i ==> values@[j] >= 1,
                forall|a: int, b: int| 0 <= a < b < i ==> indexes@[a] < indexes@[b],
            decreases values.len() - i,
        {
            assert(values@.subrange(0, i as int + 1).drop_last() =~= values@.subrange(0, i as int));
            if values[i] == 0 {
                return None;
            }
            if i > 0 && indexes[i - 1] >= indexes[i] {
                return None;
            }
            sum = sum + values[i] as u64;
            if sum > 0xffff_ffff {
                proof {
                    lemma_sum_prefix_le(values@, i as int + 1);
                }
                return None;
            }
            i += 1;
        }
        assert(values@.subrange(0, i as int) =~= values@);
        if sum != doc_len as u64 {
            return None;
        }
        Some(Bm25Vector { doc_len, indexes, values })
    }

    pub fn doc_len(&self) -> (r: u32)
        ensures
            r == self.spec_doc_len(),
    {
        self.doc_len
    }

    pub fn indexes(&self) -> (r: &[u32])
        ensures
            r@ == self.spec_indexes(),
    {
        self.indexes.as_slice()
    }

    pub fn values(&self) -> (r: &[u32])
        ensures
            r@ == self.spec_values(),
    {
        self.values.as_slice()
    }
}

/// A prefix sums to no more than the whole.
pub proof fn lemma_sum_prefix_le(s: Seq<u32>, k: int)
    requires
        0 <= k <= s.len(),
    ensures
        seq_sum(s.subrange(0, k)) <= seq_sum(s),
    decreases s.len(),
{
    if k < s.len() {
        assert(s.drop_last() =~= s.subrange(0, s.len() - 1));
        lemma_sum_prefix_le(s.drop_last(), k);
        assert(s.drop_last().subrange(0, k) =~= s.subrange(0, k));
    } else {
        assert(s.subrange(0, k) =~= s);
    }
}

}
