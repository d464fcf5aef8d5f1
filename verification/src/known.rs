//! The dedup index: a set of digests of every token sequence ever fed.
//!
//! Held as a strictly sorted vector of `u64` digests, so that a
//! snapshot of the set is canonical: equal sets serialize equally.

use vstd::prelude::*;

verus! {

/// Strictly increasing, hence duplicate-free.
pub open spec fn strictly_sorted(s: Seq<u64>) -> bool {
    forall|i: int, j: int| 0 <= i < j < s.len() ==> s[i] < s[j]
}

/// A set of digests, stored in strictly increasing order.
pub struct KnownSet {
    items: Vec<u64>,
}

impl KnownSet {
    /// The stored digests in order.
    pub closed spec fn seq(self) -> Seq<u64> {
        self.items@
    }

    /// The set of stored digests.
    pub open spec fn set(self) -> Set<u64> {
        self.seq().to_set()
    }

    /// The storage order is strictly increasing.
    pub open spec fn wf(self) -> bool {
        strictly_sorted(self.seq())
    }

    /// An empty dedup index.
    pub fn new() -> (r: KnownSet)
        ensures
            r.wf(),
            r.seq() == Seq::<u64>::empty(),
            r.set() =~= Set::<u64>::empty(),
    {
        KnownSet { items: Vec::new() }
    }

    /// Whether `h` has been recorded.
    pub fn contains(&self, h: u64) -> (r: bool)
        ensures
            r == self.set().contains(h),
    {
        let mut i: usize = 0;
        let mut found = false;
        while i < self.items.len()
            invariant
                i <= self.items@.len(),
                found == exists|k: int| 0 <= k < i && self.items@[k] == h,
            decreases self.items@.len() - i,
        {
            if self.items[i] == h {
                found = true;
            }
            i = i + 1;
        }
        proof {
            if found {
                assert(self.seq().contains(h));
            }
            if self.seq().contains(h) {
                let k = choose|k: int| 0 <= k < self.seq().len() && self.seq()[k] == h;
                assert(0 <= k < i && self.items@[k] == h);
            }
        }
        found
    }

    /// Records `h`; the set grows by exactly that digest.
    pub fn insert(&mut self, h: u64)
        requires
            old(self).wf(),
        ensures
            final(self).wf(),
            final(self).set() =~= old(self).set().insert(h),
    {
        let ghost old_items = self.items@;
        let mut pos: usize = 0;
        while pos < self.items.len() && self.items[pos] < h
            invariant
                pos <= self.items@.len(),
                forall|k: int| 0 <= k < pos ==> self.items@[k] < h,
                self.items@ == old_items,
            decreases self.items@.len() - pos,
        {
            pos = pos + 1;
        }
        if pos < self.items.len() && self.items[pos] == h {
            return ;
        }
        self.items.insert(pos, h);
        proof {
            let s = self.items@;
            assert(pos == old_items.len() || old_items[pos as int] > h);
            assert forall|i: int, j: int| 0 <= i < j < s.len() implies s[i] < s[j] by {
                if j < pos {
                    assert(s[i] == old_items[i] && s[j] == old_items[j]);
                } else if j == pos {
                    assert(s[i] == old_items[i]);
                } else if i < pos {
                    assert(s[i] == old_items[i] && s[j] == old_items[j - 1]);
                    assert(old_items[i] < h);
                    assert(old_items[pos as int] <= old_items[j - 1]);
                } else if i == pos {
                    assert(s[i] == h && s[j] == old_items[j - 1]);
                    assert(old_items[pos as int] <= old_items[j - 1]);
                } else {
                    assert(s[i] == old_items[i - 1] && s[j] == old_items[j - 1]);
                }
            }
            assert forall|x: u64| final(self).set().contains(x)
                implies old(self).set().insert(h).contains(x) by {
                let k = choose|k: int| 0 <= k < s.len() && s[k] == x;
                if k < pos {
                    assert(old_items[k] == x);
                } else if k > pos {
                    assert(old_items[k - 1] == x);
                }
            }
            assert forall|x: u64| old(self).set().insert(h).contains(x)
                implies final(self).set().contains(x) by {
                if x == h {
                    assert(s[pos as int] == h);
                    assert(s.contains(x));
                } else {
                    let k = choose|k: int| 0 <= k < old_items.len() && old_items[k] == x;
                    if k < pos {
                        assert(s[k] == x);
                    } else {
                        assert(s[k + 1] == x);
                    }
                    assert(s.contains(x));
                }
            }
        }
    }

    /// Copies out the stored digests, in their canonical order.
    pub fn to_vec(&self) -> (r: Vec<u64>)
        ensures
            r@ == self.seq(),
    {
        let mut out: Vec<u64> = Vec::new();
        let mut i: usize = 0;
        while i < self.items.len()
            invariant
                i <= self.items@.len(),
                out@ == self.items@.take(i as int),
            decreases self.items@.len() - i,
        {
            out.push(self.items[i]);
            proof {
                assert(out@ =~= self.items@.take(i + 1));
            }
            i = i + 1;
        }
        proof {
            assert(self.items@.take(self.items@.len() as int) =~= self.items@);
        }
        out
    }

    /// Rebuilds an index from a vector of digests (in any order); the
    /// resulting set holds exactly the digests of the vector.
    pub fn from_vec(items: &Vec<u64>) -> (r: KnownSet)
        ensures
            r.wf(),
            r.set() =~= items@.to_set(),
    {
        let mut out = KnownSet::new();
        let mut i: usize = 0;
        while i < items.len()
            invariant
                i <= items@.len(),
                out.wf(),
                out.set() =~= items@.take(i as int).to_set(),
            decreases items@.len() - i,
        {
            out.insert(items[i]);
            proof {
                assert(items@.take(i + 1).drop_last() =~= items@.take(i as int));
                assert forall|x: u64| out.set().contains(x)
                    implies items@.take(i + 1).to_set().contains(x) by {
                    if x == items@[i as int] {
                        assert(items@.take(i + 1)[i as int] == x);
                        assert(items@.take(i + 1).contains(x));
                    } else {
                        let k = choose|k: int| 0 <= k < i && items@.take(i as int)[k] == x;
                        assert(items@.take(i + 1)[k] == x);
                        assert(items@.take(i + 1).contains(x));
                    }
                }
                assert forall|x: u64| items@.take(i + 1).to_set().contains(x)
                    implies out.set().contains(x) by {
                    let k = choose|k: int| 0 <= k < i + 1 && #[trigger] items@.take(i + 1)[k] == x;
                    if k < i {
                        assert(items@.take(i as int)[k] == x);
                        assert(items@.take(i as int).contains(x));
                    }
                }
                assert(out.set() =~= items@.take(i + 1).to_set());
            }
            i = i + 1;
        }
        proof {
            assert(items@.take(items@.len() as int) =~= items@);
        }
        out
    }
}

} // verus!
