//! Counting how often each derived key occurs among the accepted records.
//!
//! The mapping is kept as a list of `(key, count)` entries whose keys are
//! pairwise distinct, in the order the keys were first seen; adding a key a
//! second time raises its count and never creates a second entry.

use vstd::pervasive::VecAdditionalExecFns;
use vstd::prelude::*;

use crate::splitter::cells_of;

verus! {

/// Whether the keys of `es` are pairwise distinct.
pub open spec fn keys_distinct(es: Seq<(Vec<u8>, u32)>) -> bool {
    forall|i: int, j: int| 0 <= i < j < es.len() ==> es[i].0@ != es[j].0@
}

/// The count recorded for `k` in `es`: the count of an entry whose key is
/// `k`, or zero when there is none.
pub open spec fn count_in(es: Seq<(Vec<u8>, u32)>, k: Seq<u8>) -> u32
    decreases es.len(),
{
    if es.len() == 0 {
        0
    } else if es.last().0@ == k {
        es.last().1
    } else {
        count_in(es.drop_last(), k)
    }
}

/// Replacing the entry at `i` by one with the same key changes the count of
/// that key alone.
proof fn lemma_count_update(es: Seq<(Vec<u8>, u32)>, i: int, e: (Vec<u8>, u32), k: Seq<u8>)
    requires
        0 <= i < es.len(),
        keys_distinct(es),
        e.0@ == es[i].0@,
    ensures
        count_in(es.update(i, e), k) == if k == es[i].0@ {
            e.1
        } else {
            count_in(es, k)
        },
    decreases es.len(),
{
    let es2 = es.update(i, e);
    if i == es.len() - 1 {
        assert(es2.last() == e);
        if k != es[i].0@ {
            assert(es2.drop_last() =~= es.drop_last());
        }
    } else {
        assert(es2.last() == es.last());
        assert(es2.drop_last() =~= es.drop_last().update(i, e));
        assert(forall|p: int| 0 <= p < es.len() - 1 ==> es.drop_last()[p] == es[p]);
        assert(keys_distinct(es.drop_last()));
        if es.last().0@ == k {
            assert(es[i].0@ != es.last().0@);
        } else {
            lemma_count_update(es.drop_last(), i, e, k);
        }
    }
}

/// Appending an entry sets the count of its key and changes no other.
proof fn lemma_count_push(es: Seq<(Vec<u8>, u32)>, e: (Vec<u8>, u32), k: Seq<u8>)
    ensures
        count_in(es.push(e), k) == if k == e.0@ {
            e.1
        } else {
            count_in(es, k)
        },
{
    assert(es.push(e).last() == e);
    assert(es.push(e).drop_last() =~= es);
}

/// With distinct keys, the count of the key at `i` is that entry's count.
proof fn lemma_count_at(es: Seq<(Vec<u8>, u32)>, i: int)
    requires
        0 <= i < es.len(),
        keys_distinct(es),
    ensures
        count_in(es, es[i].0@) == es[i].1,
    decreases es.len(),
{
    if i < es.len() - 1 {
        assert(es.last().0@ != es[i].0@);
        assert(forall|p: int| 0 <= p < es.len() - 1 ==> es.drop_last()[p] == es[p]);
        assert(keys_distinct(es.drop_last()));
        lemma_count_at(es.drop_last(), i);
    }
}

/// A key no entry holds has count zero.
proof fn lemma_count_absent(es: Seq<(Vec<u8>, u32)>, k: Seq<u8>)
    requires
        forall|i: int| 0 <= i < es.len() ==> es[i].0@ != k,
    ensures
        count_in(es, k) == 0,
    decreases es.len(),
{
    if es.len() > 0 {
        assert(forall|p: int| 0 <= p < es.len() - 1 ==> es.drop_last()[p] == es[p]);
        lemma_count_absent(es.drop_last(), k);
    }
}

/// Whether two byte strings hold the same bytes.
fn bytes_eq(a: &[u8], b: &[u8]) -> (r: bool)
    ensures
        r == (a@ == b@),
{
    if a.len() != b.len() {
        return false;
    }
    let mut i: usize = 0;
    while i < a.len()
        invariant
            i <= a.len(),
            a@.len() == b@.len(),
            forall|q: int| 0 <= q < i ==> a@[q] == b@[q],
        decreases a.len() - i,
    {
        if a[i] != b[i] {
            return false;
        }
        i = i + 1;
    }
    proof {
        assert(a@ =~= b@);
    }
    true
}

/// A frequency mapping from derived keys to how often they were seen.
pub struct Aggregator {
    entries: Vec<(Vec<u8>, u32)>,
}

impl Aggregator {
    /// The keys, in the order they were first seen.
    pub closed spec fn key_seq(self) -> Seq<Seq<u8>> {
        self.entries@.map_values(|e: (Vec<u8>, u32)| e.0@)
    }

    /// Every key has exactly one entry, and every recorded count is at
    /// least one.
    pub closed spec fn wf(self) -> bool {
        &&& keys_distinct(self.entries@)
        &&& forall|i: int| 0 <= i < self.entries@.len() ==> self.entries@[i].1 >= 1
    }

    /// The count recorded for `k`: zero until `k` is first added.
    pub closed spec fn count(self, k: Seq<u8>) -> u32 {
        count_in(self.entries@, k)
    }

    /// An empty mapping: no keys, every count zero.
    pub fn new() -> (r: Aggregator)
        ensures
            r.wf(),
            r.key_seq() == Seq::<Seq<u8>>::empty(),
            forall|k: Seq<u8>| r.count(k) == 0,
    {
        let r = Aggregator { entries: Vec::new() };
        proof {
            assert(r.key_seq() =~= Seq::<Seq<u8>>::empty());
        }
        r
    }

    /// Records one more occurrence of `key`: its count rises by one (staying
    /// put once it has reached the largest `u32`), no other count moves, and
    /// the key list gains `key` at its end exactly when `key` was new.
    pub fn add(&mut self, key: Vec<u8>)
        requires
            old(self).wf(),
        ensures
            final(self).wf(),
            final(self).count(key@) == if old(self).count(key@) < u32::MAX {
                (old(self).count(key@) + 1) as u32
            } else {
                old(self).count(key@)
            },
            forall|k: Seq<u8>| k != key@ ==> final(self).count(k) == old(self).count(k),
            old(self).count(key@) == 0 ==> final(self).key_seq() == old(self).key_seq().push(
                key@,
            ),
            old(self).count(key@) > 0 ==> final(self).key_seq() == old(self).key_seq(),
    {
        let ghost es0 = self.entries@;
        let n = self.entries.len();
        let mut i: usize = 0;
        while i < n
            invariant
                i <= n,
                n == self.entries@.len(),
                self.entries@ == es0,
                es0 == old(self).entries@,
                keys_distinct(es0),
                forall|q: int| 0 <= q < es0.len() ==> es0[q].1 >= 1,
                forall|q: int| 0 <= q < i ==> es0[q].0@ != key@,
            decreases n - i,
        {
            if bytes_eq(self.entries[i].0.as_slice(), key.as_slice()) {
                let c = self.entries[i].1;
                let newc: u32 = if c < u32::MAX {
                    c + 1
                } else {
                    c
                };
                proof {
                    lemma_count_at(es0, i as int);
                    lemma_count_update(es0, i as int, (key, newc), key@);
                    assert forall|k: Seq<u8>| k != key@ implies count_in(
                        es0.update(i as int, (key, newc)),
                        k,
                    ) == count_in(es0, k) by {
                        lemma_count_update(es0, i as int, (key, newc), k);
                    }
                }
                self.entries.set(i, (key, newc));
                proof {
                    let es1 = self.entries@;
                    assert(forall|p: int| 0 <= p < es1.len() ==> es1[p].0@ == es0[p].0@);
                    assert(self.key_seq() =~= old(self).key_seq());
                }
                return ;
            }
            i = i + 1;
        }
        proof {
            lemma_count_absent(es0, key@);
            lemma_count_push(es0, (key, 1u32), key@);
            assert forall|k: Seq<u8>| k != key@ implies count_in(es0.push((key, 1u32)), k)
                == count_in(es0, k) by {
                lemma_count_push(es0, (key, 1u32), k);
            }
        }
        let ghost keyv = key@;
        self.entries.push((key, 1));
        proof {
            assert(self.key_seq() =~= old(self).key_seq().push(keyv));
        }
    }

    /// The count recorded for `key`.
    pub fn get_count(&self, key: &[u8]) -> (r: u32)
        requires
            self.wf(),
        ensures
            r == self.count(key@),
    {
        let n = self.entries.len();
        let mut i: usize = 0;
        while i < n
            invariant
                i <= n,
                n == self.entries@.len(),
                self.wf(),
                forall|q: int| 0 <= q < i ==> self.entries@[q].0@ != key@,
            decreases n - i,
        {
            if bytes_eq(self.entries[i].0.as_slice(), key) {
                proof {
                    lemma_count_at(self.entries@, i as int);
                }
                return self.entries[i].1;
            }
            i = i + 1;
        }
        proof {
            lemma_count_absent(self.entries@, key@);
        }
        0
    }

    /// The distinct keys, in the order they were first seen.
    pub fn keys(&self) -> (r: Vec<Vec<u8>>)
        ensures
            cells_of(r@) == self.key_seq(),
    {
        let mut out: Vec<Vec<u8>> = Vec::new();
        let n = self.entries.len();
        let mut i: usize = 0;
        proof {
            assert(cells_of(out@) =~= self.key_seq().take(0));
        }
        while i < n
            invariant
                i <= n,
                n == self.entries@.len(),
                cells_of(out@) == self.key_seq().take(i as int),
            decreases n - i,
        {
            let k = self.entries[i].0.clone();
            proof {
                assert(k@ =~= self.entries@[i as int].0@);
            }
            let ghost pre = cells_of(out@);
            out.push(k);
            proof {
                assert(cells_of(out@) =~= pre.push(self.entries@[i as int].0@));
                assert(cells_of(out@) =~= self.key_seq().take(i + 1));
            }
            i = i + 1;
        }
        proof {
            assert(self.key_seq().take(n as int) =~= self.key_seq());
        }
        out
    }

    /// A well-formed aggregator records a positive count for a key exactly
    /// when that key stands in its key list.
    pub proof fn lemma_counted_iff_key(self, k: Seq<u8>)
        requires
            self.wf(),
        ensures
            self.count(k) > 0 <==> self.key_seq().contains(k),
    {
        let es = self.entries@;
        if exists|i: int| 0 <= i < es.len() && es[i].0@ == k {
            let i = choose|i: int| 0 <= i < es.len() && es[i].0@ == k;
            lemma_count_at(es, i);
            assert(self.key_seq()[i] == k);
        } else {
            lemma_count_absent(es, k);
            if self.key_seq().contains(k) {
                let i = choose|i: int| 0 <= i < self.key_seq().len() && self.key_seq()[i] == k;
                assert(es[i].0@ == k);
            }
        }
    }

    /// A well-formed aggregator never holds one key twice in its key list.
    pub proof fn lemma_keys_unique(self)
        requires
            self.wf(),
        ensures
            forall|p: int, q: int|
                0 <= p < q < self.key_seq().len() ==> self.key_seq()[p] != self.key_seq()[q],
    {
        assert(forall|p: int|
            0 <= p < self.key_seq().len() ==> self.key_seq()[p] == self.entries@[p].0@);
    }
}

} // verus!
