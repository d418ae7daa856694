//! Shore points and the priority queue that drives lake growth.
//!
//! A growing lake repeatedly absorbs the lowest cell on its boundary.
//! The queue therefore hands out the entry with minimal height, breaking
//! ties towards the larger cell id, which keeps the pop order total and
//! deterministic.

use vstd::multiset::Multiset;
use vstd::prelude::*;

verus! {

broadcast use vstd::multiset::group_multiset_axioms;

/// A candidate cell on the boundary of a growing lake, keyed by the cell's
/// height at enqueue time.
#[derive(Clone, Copy, PartialEq, Eq, Structural, Debug)]
pub struct ShorePoint {
    pub id: usize,
    pub height: i64,
}

/// `a` pops no later than `b`: lower height first, and among equal heights
/// the larger id first. This is a total order on shore points, so the value
/// a pop returns is determined by the queue's contents alone.
pub open spec fn pops_first(a: ShorePoint, b: ShorePoint) -> bool {
    a.height < b.height || (a.height == b.height && a.id >= b.id)
}

/// A priority queue of shore points, viewed as a multiset.
///
/// Duplicate entries are permitted; a cell may become a shore of the same
/// lake through several interior neighbours.
pub struct ShoreQueue {
    items: Vec<ShorePoint>,
}

impl ShoreQueue {
    pub closed spec fn view(&self) -> Multiset<ShorePoint> {
        self.items@.to_multiset()
    }

    pub fn new() -> (q: ShoreQueue)
        ensures
            q@ == Multiset::<ShorePoint>::empty(),
    {
        let q = ShoreQueue { items: Vec::new() };
        proof {
            q.items@.to_multiset_ensures();
            assert forall|o: ShorePoint| q@.count(o) == 0nat by {
                if q@.count(o) > 0 {
                    assert(q.items@.contains(o));
                }
            }
            assert(q@ =~= Multiset::<ShorePoint>::empty());
        }
        q
    }

    pub fn len(&self) -> (n: usize)
        ensures
            n == self@.len(),
    {
        proof {
            self.items@.to_multiset_ensures();
        }
        self.items.len()
    }

    pub fn push(&mut self, s: ShorePoint)
        ensures
            final(self)@ == old(self)@.insert(s),
    {
        let ghost pre = self.items@;
        self.items.push(s);
        proof {
            pre.to_multiset_ensures();
        }
    }

    /// Removes and returns the entry that pops first, or `None` on an empty
    /// queue.
    pub fn pop(&mut self) -> (r: Option<ShorePoint>)
        ensures
            match r {
                None => old(self)@.len() == 0 && final(self)@ == old(self)@,
                Some(s) => {
                    &&& old(self)@.count(s) > 0
                    &&& final(self)@ == old(self)@.remove(s)
                    &&& forall|o: ShorePoint| old(self)@.count(o) > 0 ==> pops_first(s, o)
                },
            },
    {
        proof {
            self.items@.to_multiset_ensures();
        }
        if self.items.len() == 0 {
            return None;
        }
        let ghost pre = self.items@;
        let mut best: usize = 0;
        let mut j: usize = 1;
        while j < self.items.len()
            invariant
                best < j <= self.items@.len(),
                forall|i: int| 0 <= i < j ==> pops_first(self.items@[best as int], self.items@[i]),
            decreases self.items@.len() - j,
        {
            let cand = self.items[j];
            let cur = self.items[best];
            if cand.height < cur.height || (cand.height == cur.height && cand.id >= cur.id) {
                best = j;
            }
            j = j + 1;
        }
        let s = self.items.remove(best);
        proof {
            pre.to_multiset_ensures();
            assert(final(self)@ == old(self)@.remove(s));
            assert forall|o: ShorePoint| old(self)@.count(o) > 0 implies pops_first(s, o) by {
                assert(pre.contains(o));
                let i = choose|i: int| 0 <= i < pre.len() && pre[i] == o;
                assert(pops_first(pre[best as int], pre[i]));
            }
        }
        Some(s)
    }

    /// Removes every copy of `s` still in the queue. The lake builder calls
    /// this right after popping `s`, peeling duplicate insertions off the
    /// top of the queue.
    pub fn drain_duplicates(&mut self, s: ShorePoint)
        ensures
            final(self)@.count(s) == 0,
            forall|o: ShorePoint| o != s ==> final(self)@.count(o) == old(self)@.count(o),
    {
        proof {
            self.items@.to_multiset_ensures();
        }
        let ghost orig = self.items@.to_multiset();
        let mut j: usize = 0;
        while j < self.items.len()
            invariant
                j <= self.items@.len(),
                forall|i: int| 0 <= i < j ==> self.items@[i] != s,
                forall|o: ShorePoint| o != s ==> self.items@.to_multiset().count(o) == orig.count(o),
            decreases self.items@.len() - j,
        {
            let c = self.items[j];
            if c.id == s.id && c.height == s.height {
                let ghost pre = self.items@;
                let _ = self.items.remove(j);
                proof {
                    pre.to_multiset_ensures();
                    assert(pre[j as int] == s);
                    assert(self.items@.to_multiset() == pre.to_multiset().remove(s));
                }
            } else {
                j = j + 1;
            }
        }
        proof {
            self.items@.to_multiset_ensures();
            if self.items@.to_multiset().count(s) > 0 {
                assert(self.items@.contains(s));
                let i = choose|i: int| 0 <= i < self.items@.len() && self.items@[i] == s;
                assert(false);
            }
        }
    }

    /// Moves every entry of `other` into this queue, leaving `other` empty.
    /// Used when a growing lake absorbs another: the dissolved lake's
    /// shores carry over, duplicates permitted.
    pub fn absorb(&mut self, other: &mut ShoreQueue)
        ensures
            final(self)@ == old(self)@.add(old(other)@),
            final(other)@ == Multiset::<ShorePoint>::empty(),
    {
        proof {
            self.items@.to_multiset_ensures();
            other.items@.to_multiset_ensures();
        }
        let ghost mine = self.items@.to_multiset();
        let ghost theirs = old(other).items@.to_multiset();
        let mut moved: ShoreQueue = ShoreQueue { items: Vec::new() };
        core::mem::swap(&mut moved, other);
        proof {
            other.items@.to_multiset_ensures();
            assert forall|o: ShorePoint| other@.count(o) == 0nat by {
                if other@.count(o) > 0 {
                    assert(other.items@.contains(o));
                }
            }
            assert(other@ =~= Multiset::<ShorePoint>::empty());
        }
        let mut j: usize = 0;
        proof {
            assert(moved.items@.take(0) =~= Seq::<ShorePoint>::empty());
            Seq::<ShorePoint>::empty().to_multiset_ensures();
            assert(self.items@.to_multiset() =~= mine.add(moved.items@.take(0).to_multiset()));
        }
        while j < moved.items.len()
            invariant
                j <= moved.items@.len(),
                moved.items@.to_multiset() == theirs,
                self.items@.to_multiset() =~= mine.add(moved.items@.take(j as int).to_multiset()),
            decreases moved.items@.len() - j,
        {
            let ghost pre = self.items@;
            let ghost taken = moved.items@.take(j as int);
            let e = moved.items[j];
            self.items.push(e);
            proof {
                pre.to_multiset_ensures();
                taken.to_multiset_ensures();
                assert(moved.items@.take(j + 1) =~= taken.push(e));
                assert(self.items@.to_multiset()
                    =~= mine.add(moved.items@.take(j + 1).to_multiset()));
            }
            j = j + 1;
        }
        proof {
            assert(moved.items@.take(moved.items@.len() as int) =~= moved.items@);
            assert(self.items@.to_multiset() =~= mine.add(theirs));
        }
    }
}

} // verus!
