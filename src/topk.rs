//! Bounded top-K selection with a rising admission threshold.
//!
//! Entries are `(key, id)` pairs ordered by key; a score is turned into a key
//! by an order-preserving map to `u32` before it gets here. The buffer holds
//! up to `2k` entries; when it is full it is cut back to the `k` largest and
//! the largest key cut off becomes the threshold below which later entries
//! are turned away.
use vstd::prelude::*;
use vstd::seq_lib::{lemma_multiset_commutative, to_multiset_build, to_multiset_insert};

verus! {

broadcast use vstd::seq_lib::group_to_multiset_ensures, vstd::multiset::group_multiset_axioms;

/// Keys of `s` are non-increasing.
pub open spec fn sorted_desc(s: Seq<(u32, u32)>) -> bool {
    forall|i: int, j: int| 0 <= i < j < s.len() ==> s[i].0 >= s[j].0
}

/// Keys of `s` are non-decreasing.
pub open spec fn sorted_asc(s: Seq<(u32, u32)>) -> bool {
    forall|i: int, j: int| 0 <= i < j < s.len() ==> s[i].0 <= s[j].0
}

/// Every key of `a` is at most every key of `b`.
pub open spec fn all_le(a: Seq<(u32, u32)>, b: Seq<(u32, u32)>) -> bool {
    forall|i: int, j: int| 0 <= i < a.len() && 0 <= j < b.len() ==> a[i].0 <= b[j].0
}

/// How many entries of `s` have a key of at least `t`.
pub open spec fn count_at_least(s: Seq<(u32, u32)>, t: u32) -> nat
    decreases s.len(),
{
    if s.len() == 0 {
        0
    } else {
        count_at_least(s.drop_last(), t) + if s.last().0 >= t {
            1nat
        } else {
            0nat
        }
    }
}

proof fn lemma_count_concat(a: Seq<(u32, u32)>, b: Seq<(u32, u32)>, t: u32)
    ensures
        count_at_least(a + b, t) == count_at_least(a, t) + count_at_least(b, t),
    decreases b.len(),
{
    if b.len() == 0 {
        assert(a + b =~= a);
    } else {
        lemma_count_concat(a, b.drop_last(), t);
        assert((a + b).drop_last() =~= a + b.drop_last());
    }
}

proof fn lemma_count_all(s: Seq<(u32, u32)>, t: u32)
    requires
        forall|i: int| 0 <= i < s.len() ==> s[i].0 >= t,
    ensures
        count_at_least(s, t) == s.len(),
    decreases s.len(),
{
    if s.len() > 0 {
        lemma_count_all(s.drop_last(), t);
    }
}

proof fn lemma_count_remove(s: Seq<(u32, u32)>, j: int, t: u32)
    requires
        0 <= j < s.len(),
    ensures
        count_at_least(s, t) == count_at_least(s.remove(j), t) + if s[j].0 >= t {
            1nat
        } else {
            0nat
        },
    decreases s.len(),
{
    if j == s.len() - 1 {
        assert(s.remove(j) =~= s.drop_last());
    } else {
        lemma_count_remove(s.drop_last(), j, t);
        assert(s.remove(j).drop_last() =~= s.drop_last().remove(j));
        assert(s.remove(j).last() == s.last());
    }
}

/// Counting is the same on two orderings of the same entries.
proof fn lemma_count_perm(a: Seq<(u32, u32)>, b: Seq<(u32, u32)>, t: u32)
    requires
        a.to_multiset() == b.to_multiset(),
    ensures
        count_at_least(a, t) == count_at_least(b, t),
    decreases a.len(),
{
    if a.len() == 0 {
        assert(b.len() == b.to_multiset().len());
    } else {
        let x = a.last();
        let a1 = a.drop_last();
        assert(a =~= a1.push(x));
        assert(a.to_multiset() == a1.to_multiset().insert(x));
        assert(b.to_multiset().count(x) > 0);
        assert(b.contains(x));
        let j = choose|j: int| 0 <= j < b.len() && b[j] == x;
        let b1 = b.remove(j);
        assert(b1.to_multiset() == b.to_multiset().remove(x));
        assert(a1.to_multiset() =~= a1.to_multiset().insert(x).remove(x));
        lemma_count_perm(a1, b1, t);
        lemma_count_remove(b, j, t);
    }
}

/// The entries of `s`, largest key first; equal keys keep their order.
fn sort_desc(s: &Vec<(u32, u32)>) -> (r: Vec<(u32, u32)>)
    ensures
        sorted_desc(r@),
        r@.to_multiset() == s@.to_multiset(),
        r@.len() == s@.len(),
{
    let mut r: Vec<(u32, u32)> = Vec::new();
    let mut i: usize = 0;
    assert(s@.subrange(0, 0) =~= Seq::<(u32, u32)>::empty());
    assert(r@ =~= Seq::<(u32, u32)>::empty());
    while i < s.len()
        invariant
            i <= s@.len(),
            sorted_desc(r@),
            r@.to_multiset() == s@.subrange(0, i as int).to_multiset(),
            r@.len() == i,
        decreases s@.len() - i,
    {
        let x = s[i];
        let mut pos: usize = 0;
        while pos < r.len() && r[pos].0 >= x.0
            invariant
                pos <= r@.len(),
                forall|j: int| 0 <= j < pos ==> r@[j].0 >= x.0,
            decreases r@.len() - pos,
        {
            pos += 1;
        }
        proof {
            to_multiset_insert(r@, pos as int, x);
            to_multiset_build(s@.subrange(0, i as int), x);
            assert(s@.subrange(0, i + 1) =~= s@.subrange(0, i as int).push(x));
        }
        let ghost old_r = r@;
        r.insert(pos, x);
        proof {
            assert forall|a: int, b: int| 0 <= a < b < r@.len() implies r@[a].0 >= r@[b].0 by {
                if a < pos && b < pos {
                    assert(old_r[a].0 >= old_r[b].0);
                } else if a < pos && b == pos {
                } else if a < pos && b > pos {
                    assert(old_r[a].0 >= old_r[b - 1].0);
                } else if a == pos {
                    assert(pos < old_r.len() ==> old_r[pos as int].0 < x.0);
                    if b - 1 > pos {
                        assert(old_r[pos as int].0 >= old_r[b - 1].0);
                    }
                } else {
                    assert(old_r[a - 1].0 >= old_r[b - 1].0);
                }
            }
        }
        i += 1;
    }
    assert(s@.subrange(0, i as int) =~= s@);
    r
}

/// Keeps the `k` largest of up to `2k` entries.
pub struct TopKComputer {
    buffer: Vec<(u32, u32)>,
    k: usize,
    threshold: u32,
    truncated: bool,
    pushed: Ghost<Seq<(u32, u32)>>,
    dropped: Ghost<Seq<(u32, u32)>>,
}

impl TopKComputer {
    /// Every entry pushed so far, in order.
    pub closed spec fn pushed(&self) -> Seq<(u32, u32)> {
        self.pushed@
    }

    /// The entries that have been turned away or cut off.
    pub closed spec fn dropped(&self) -> Seq<(u32, u32)> {
        self.dropped@
    }

    pub closed spec fn spec_k(&self) -> nat {
        self.k as nat
    }

    pub closed spec fn spec_threshold(&self) -> u32 {
        self.threshold
    }

    pub closed spec fn wf(&self) -> bool {
        &&& self.k > 0
        &&& self.k <= usize::MAX / 2
        &&& self.buffer@.len() <= 2 * self.k
        &&& self.pushed@.to_multiset() == self.buffer@.to_multiset().add(
            self.dropped@.to_multiset(),
        )
        &&& forall|i: int| 0 <= i < self.buffer@.len() ==> self.buffer@[i].0 >= self.threshold
        &&& forall|i: int| 0 <= i < self.dropped@.len() ==> self.dropped@[i].0 <= self.threshold
        &&& (self.dropped@.len() > 0 || self.threshold > 0) ==> self.truncated
        &&& self.truncated ==> self.buffer@.len() >= self.k
    }

    pub fn new(k: usize) -> (r: Self)
        requires
            0 < k <= usize::MAX / 2,
        ensures
            r.wf(),
            r.spec_k() == k,
            r.pushed().len() == 0,
            r.spec_threshold() == 0,
    {
        let r = Self {
            buffer: Vec::new(),
            k,
            threshold: 0,
            truncated: false,
            pushed: Ghost(Seq::empty()),
            dropped: Ghost(Seq::empty()),
        };
        proof {
            assert(r.buffer@ =~= Seq::<(u32, u32)>::empty());
            assert(r.pushed@.to_multiset() =~= r.buffer@.to_multiset().add(
                r.dropped@.to_multiset(),
            ));
        }
        r
    }

    /// Offers an entry. One whose key is below the threshold is turned away.
    pub fn push(&mut self, key: u32, id: u32)
        requires
            old(self).wf(),
        ensures
            final(self).wf(),
            final(self).spec_k() == old(self).spec_k(),
            final(self).pushed() == old(self).pushed().push((key, id)),
            final(self).spec_threshold() >= old(self).spec_threshold(),
            final(self).spec_threshold() > 0 ==> count_at_least(
                final(self).pushed(),
                final(self).spec_threshold(),
            ) >= final(self).spec_k(),
    {
        let ghost x = (key, id);
        proof {
            to_multiset_build(self.pushed@, x);
        }
        if key < self.threshold {
            proof {
                to_multiset_build(self.dropped@, x);
            }
            self.pushed = Ghost(self.pushed@.push(x));
            self.dropped = Ghost(self.dropped@.push(x));
            proof {
                assert(self.pushed@.to_multiset() =~= self.buffer@.to_multiset().add(
                    self.dropped@.to_multiset(),
                ));
            }
            proof {
                self.lemma_threshold_sound();
            }
            return;
        }
        if self.buffer.len() == 2 * self.k {
            self.truncate_top_k();
            if key < self.threshold {
                proof {
                    to_multiset_build(self.dropped@, x);
                }
                self.pushed = Ghost(self.pushed@.push(x));
                self.dropped = Ghost(self.dropped@.push(x));
                proof {
                    assert(self.pushed@.to_multiset() =~= self.buffer@.to_multiset().add(
                        self.dropped@.to_multiset(),
                    ));
                }
                proof {
                self.lemma_threshold_sound();
            }
            return;
            }
        }
        proof {
            to_multiset_build(self.buffer@, x);
        }
        self.buffer.push((key, id));
        self.pushed = Ghost(self.pushed@.push(x));
        proof {
            assert(self.pushed@.to_multiset() =~= self.buffer@.to_multiset().add(
                self.dropped@.to_multiset(),
            ));
        }
        proof {
            self.lemma_threshold_sound();
        }
    }

    /// A positive threshold is at most the `k`-th largest key pushed: at
    /// least `k` of the pushed keys reach it, so no entry among the `k` best
    /// is turned away.
    pub proof fn lemma_threshold_sound(&self)
        requires
            self.wf(),
        ensures
            self.spec_threshold() > 0 ==> count_at_least(self.pushed(), self.spec_threshold())
                >= self.spec_k(),
    {
        if self.threshold > 0 {
            let t = self.threshold;
            lemma_multiset_commutative(self.buffer@, self.dropped@);
            lemma_count_perm(self.pushed@, self.buffer@ + self.dropped@, t);
            lemma_count_concat(self.buffer@, self.dropped@, t);
            lemma_count_all(self.buffer@, t);
        }
    }

    /// The key below which entries are turned away.
    pub fn threshold(&self) -> (r: u32)
        ensures
            r == self.spec_threshold(),
    {
        self.threshold
    }

    /// Cuts the buffer back to its `k` largest entries, largest first, and
    /// returns the largest key cut off, which becomes the threshold.
    fn truncate_top_k(&mut self) -> (median: u32)
        requires
            old(self).wf(),
            old(self).buffer@.len() > old(self).k,
        ensures
            final(self).wf(),
            final(self).k == old(self).k,
            final(self).pushed == old(self).pushed,
            final(self).buffer@.len() == old(self).k,
            sorted_desc(final(self).buffer@),
            all_le(final(self).dropped@, final(self).buffer@),
            final(self).threshold >= old(self).threshold,
            median == final(self).threshold,
    {
        let sorted = sort_desc(&self.buffer);
        let k = self.k;
        let median = sorted[k].0;
        let mut kept: Vec<(u32, u32)> = Vec::new();
        let mut i: usize = 0;
        while i < k
            invariant
                i <= k < sorted@.len(),
                kept@ == sorted@.subrange(0, i as int),
            decreases k - i,
        {
            kept.push(sorted[i]);
            i += 1;
            assert(kept@ =~= sorted@.subrange(0, i as int));
        }
        let ghost cut = sorted@.subrange(k as int, sorted@.len() as int);
        proof {
            assert(sorted@ =~= kept@ + cut);
            lemma_multiset_commutative(kept@, cut);
            lemma_multiset_commutative(self.dropped@, cut);
            assert(sorted@.contains(sorted@[k as int]));
            assert(self.buffer@.to_multiset().count(sorted@[k as int]) > 0);
            assert(self.buffer@.contains(sorted@[k as int]));
            assert forall|j: int| 0 <= j < kept@.len() implies kept@[j].0 >= median by {
                assert(sorted@[j].0 >= sorted@[k as int].0);
            }
            assert forall|j: int| 0 <= j < cut.len() implies cut[j].0 <= median by {
                if j > 0 {
                    assert(sorted@[k as int].0 >= sorted@[k + j].0);
                }
            }
            assert forall|j: int| 0 <= j < sorted@.len() implies sorted@[j].0 >= self.threshold by {
                assert(sorted@.contains(sorted@[j]));
                assert(self.buffer@.to_multiset().count(sorted@[j]) > 0);
                assert(self.buffer@.contains(sorted@[j]));
            }
        }
        let ghost new_dropped = self.dropped@ + cut;
        self.buffer = kept;
        self.dropped = Ghost(new_dropped);
        self.threshold = median;
        self.truncated = true;
        proof {
            assert(self.pushed@.to_multiset() =~= self.buffer@.to_multiset().add(
                self.dropped@.to_multiset(),
            ));
            assert forall|j: int| 0 <= j < self.dropped@.len() implies self.dropped@[j].0
                <= median by {
                if j >= old(self).dropped@.len() {
                    assert(self.dropped@[j] == cut[j - old(self).dropped@.len()]);
                }
            }
            assert(all_le(self.dropped@, self.buffer@));
        }
        median
    }

    /// The kept entries, smallest key first: the `k` largest of all that
    /// were pushed, or all of them when fewer were pushed.
    pub fn to_sorted_slice(&mut self) -> (r: &[(u32, u32)])
        requires
            old(self).wf(),
        ensures
            final(self).wf(),
            final(self).pushed() == old(self).pushed(),
            sorted_asc(r@),
            r@.len() == if old(self).pushed().len() < old(self).spec_k() {
                old(self).pushed().len()
            } else {
                old(self).spec_k()
            },
            old(self).pushed().to_multiset() == r@.to_multiset().add(
                final(self).dropped().to_multiset(),
            ),
            all_le(final(self).dropped(), r@),
    {
        if self.buffer.len() > self.k {
            self.truncate_top_k();
        }
        let sorted = sort_desc(&self.buffer);
        let mut asc: Vec<(u32, u32)> = Vec::new();
        let mut i: usize = sorted.len();
        while i > 0
            invariant
                i <= sorted@.len(),
                asc@ == sorted@.subrange(i as int, sorted@.len() as int).reverse(),
            decreases i,
        {
            i -= 1;
            asc.push(sorted[i]);
            assert(asc@ =~= sorted@.subrange(i as int, sorted@.len() as int).reverse());
        }
        proof {
            assert(sorted@.subrange(0, sorted@.len() as int) =~= sorted@);
            sorted@.lemma_reverse_to_multiset();
            assert forall|a: int, b: int| 0 <= a < b < asc@.len() implies asc@[a].0 <= asc@[b].0 by {
                assert(asc@[a] == sorted@[sorted@.len() - 1 - a]);
                assert(asc@[b] == sorted@[sorted@.len() - 1 - b]);
            }
            assert forall|a: int, b: int|
                0 <= a < self.dropped@.len() && 0 <= b < asc@.len() implies self.dropped@[a].0
                <= asc@[b].0 by {
                let e = sorted@[sorted@.len() - 1 - b];
                assert(asc@[b] == e);
                assert(sorted@.contains(e));
                assert(self.buffer@.to_multiset().count(e) > 0);
                assert(self.buffer@.contains(e));
            }
            if old(self).pushed@.len() < old(self).k {
                assert(!self.truncated) by {
                    if self.truncated {
                        assert(self.buffer@.to_multiset().len() == self.buffer@.len());
                        assert(self.pushed@.to_multiset().len() == self.pushed@.len());
                    }
                }
            }
            assert(self.dropped@.len() > 0 ==> self.buffer@.len() == self.k);
            assert(self.pushed@.to_multiset().len() == self.pushed@.len());
            assert(self.buffer@.to_multiset().len() == self.buffer@.len());
            assert(self.dropped@.to_multiset().len() == self.dropped@.len());
            assert(asc@ =~= sorted@.reverse());
            assert(asc@.to_multiset() == self.buffer@.to_multiset());
            assert forall|b: int| 0 <= b < asc@.len() implies asc@[b].0 >= self.threshold by {
                let e = sorted@[sorted@.len() - 1 - b];
                assert(asc@[b] == e);
                assert(sorted@.contains(e));
                assert(self.buffer@.to_multiset().count(e) > 0);
                assert(self.buffer@.contains(e));
            }
        }
        self.buffer = asc;
        self.buffer.as_slice()
    }
}

}
