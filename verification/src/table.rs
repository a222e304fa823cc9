//! A table by number, kept in the order of the numbers.

use vstd::prelude::*;

verus! {

/// Numbers go up, so that none comes twice.
pub open spec fn ascending<V>(s: Seq<(u64, V)>) -> bool {
    forall|i: int, j: int| 0 <= i < j < s.len() ==> (#[trigger] s[i]).0 < (#[trigger] s[j]).0
}

/// `k` is among the numbers.
pub open spec fn keyed<V>(s: Seq<(u64, V)>, k: u64) -> bool {
    exists|i: int| 0 <= i < s.len() && (#[trigger] s[i]).0 == k
}

/// The numbers with what stands at each.
pub open spec fn mapped<V>(s: Seq<(u64, V)>) -> Map<u64, V> {
    Map::new(
        |k: u64| keyed(s, k),
        |k: u64| s[choose|i: int| 0 <= i < s.len() && (#[trigger] s[i]).0 == k].1,
    )
}

pub proof fn lemma_mapped_at<V>(s: Seq<(u64, V)>, i: int)
    requires
        ascending(s),
        0 <= i < s.len(),
    ensures
        mapped(s).dom().contains(s[i].0),
        mapped(s)[s[i].0] == s[i].1,
{
    let k = s[i].0;
    assert(keyed(s, k));
    let j = choose|j: int| 0 <= j < s.len() && (#[trigger] s[j]).0 == k;
    assert(i == j);
}

proof fn lemma_mapped_insert<V>(s: Seq<(u64, V)>, at: int, k: u64, v: V)
    requires
        ascending(s),
        0 <= at <= s.len(),
        forall|i: int| 0 <= i < at ==> (#[trigger] s[i]).0 < k,
        forall|i: int| at <= i < s.len() ==> (#[trigger] s[i]).0 > k,
    ensures
        ascending(s.insert(at, (k, v))),
        mapped(s.insert(at, (k, v))) =~= mapped(s).insert(k, v),
{
    let t = s.insert(at, (k, v));
    assert(t[at] == (k, v));
    assert forall|x: u64| keyed(t, x) == (keyed(s, x) || x == k) by {
        if keyed(s, x) {
            let i = choose|i: int| 0 <= i < s.len() && (#[trigger] s[i]).0 == x;
            let j = if i < at {
                i
            } else {
                i + 1
            };
            assert(t[j].0 == x);
        }
        if keyed(t, x) {
            let j = choose|j: int| 0 <= j < t.len() && (#[trigger] t[j]).0 == x;
            if j < at {
                assert(s[j].0 == x);
            } else if j > at {
                assert(s[j - 1].0 == x);
            }
        }
    }
    assert forall|x: u64| keyed(t, x) implies mapped(t)[x] == mapped(s).insert(k, v)[x] by {
        let j = choose|j: int| 0 <= j < t.len() && (#[trigger] t[j]).0 == x;
        lemma_mapped_at(t, j);
        if j < at {
            lemma_mapped_at(s, j);
            assert(s[j] == t[j]);
        } else if j > at {
            lemma_mapped_at(s, j - 1);
            assert(s[j - 1] == t[j]);
        }
    }
}

proof fn lemma_mapped_update<V>(s: Seq<(u64, V)>, at: int, v: V)
    requires
        ascending(s),
        0 <= at < s.len(),
    ensures
        ascending(s.update(at, (s[at].0, v))),
        mapped(s.update(at, (s[at].0, v))) =~= mapped(s).insert(s[at].0, v),
{
    let k = s[at].0;
    let t = s.update(at, (k, v));
    assert forall|x: u64| keyed(t, x) == keyed(s, x) by {
        if keyed(s, x) {
            let i = choose|i: int| 0 <= i < s.len() && (#[trigger] s[i]).0 == x;
            assert(t[i].0 == x);
        }
        if keyed(t, x) {
            let i = choose|i: int| 0 <= i < t.len() && (#[trigger] t[i]).0 == x;
            assert(s[i].0 == x);
        }
    }
    assert(t[at].0 == k);
    assert(keyed(t, k));
    assert forall|x: u64| keyed(t, x) implies mapped(t)[x] == mapped(s).insert(k, v)[x] by {
        let j = choose|j: int| 0 <= j < t.len() && (#[trigger] t[j]).0 == x;
        lemma_mapped_at(t, j);
        lemma_mapped_at(s, j);
        if j != at {
            assert(s[j] == t[j]);
        }
    }
}

proof fn lemma_mapped_remove<V>(s: Seq<(u64, V)>, at: int)
    requires
        ascending(s),
        0 <= at < s.len(),
    ensures
        ascending(s.remove(at)),
        mapped(s.remove(at)) =~= mapped(s).remove(s[at].0),
{
    let k = s[at].0;
    let t = s.remove(at);
    assert forall|x: u64| keyed(t, x) == (keyed(s, x) && x != k) by {
        if keyed(s, x) && x != k {
            let i = choose|i: int| 0 <= i < s.len() && (#[trigger] s[i]).0 == x;
            let j = if i < at {
                i
            } else {
                i - 1
            };
            assert(t[j].0 == x);
        }
        if keyed(t, x) {
            let j = choose|j: int| 0 <= j < t.len() && (#[trigger] t[j]).0 == x;
            let i = if j < at {
                j
            } else {
                j + 1
            };
            assert(s[i].0 == x);
            assert(s[at].0 == k);
        }
    }
    assert forall|x: u64| keyed(t, x) implies mapped(t)[x] == mapped(s).remove(k)[x] by {
        let j = choose|j: int| 0 <= j < t.len() && (#[trigger] t[j]).0 == x;
        lemma_mapped_at(t, j);
        let i = if j < at {
            j
        } else {
            j + 1
        };
        lemma_mapped_at(s, i);
        assert(s[i] == t[j]);
    }
}

#[derive(Debug)]
pub struct Table<V> {
    entries: Vec<(u64, V)>,
}

impl<V> Table<V> {
    /// What stands in the table, in the order of the numbers.
    pub closed spec fn entries(&self) -> Seq<(u64, V)> {
        self.entries@
    }

    pub open spec fn wf(&self) -> bool {
        ascending(self.entries())
    }

    pub open spec fn view(&self) -> Map<u64, V> {
        mapped(self.entries())
    }

    pub fn new() -> (r: Self)
        ensures
            r.wf(),
            r@ == Map::<u64, V>::empty(),
            r.entries() == Seq::<(u64, V)>::empty(),
    {
        let r = Table { entries: Vec::new() };
        proof {
            assert(r@ =~= Map::empty());
        }
        r
    }

    pub fn len(&self) -> (r: usize)
        ensures
            r == self.entries().len(),
    {
        self.entries.len()
    }

    /// What stands at a place in the order.
    pub fn at(&self, i: usize) -> (r: (u64, &V))
        requires
            i < self.entries().len(),
        ensures
            self.entries()[i as int] == (r.0, *r.1),
    {
        let e = &self.entries[i];
        (e.0, &e.1)
    }

    /// Where the number is, or would be.
    fn place(&self, k: u64) -> (r: usize)
        requires
            self.wf(),
        ensures
            r <= self.entries().len(),
            forall|i: int| 0 <= i < r ==> (#[trigger] self.entries()[i]).0 < k,
            forall|i: int| r <= i < self.entries().len() ==> (#[trigger] self.entries()[i]).0 >= k,
    {
        let mut low: usize = 0;
        let mut high: usize = self.entries.len();
        while low < high
            invariant
                self.wf(),
                low <= high <= self.entries().len(),
                self.entries@ == self.entries(),
                forall|i: int| 0 <= i < low ==> (#[trigger] self.entries()[i]).0 < k,
                forall|i: int|
                    high <= i < self.entries().len() ==> (#[trigger] self.entries()[i]).0 >= k,
            decreases high - low,
        {
            let mid: usize = low + (high - low) / 2;
            let ghost m = self.entries()[mid as int].0;
            if self.entries[mid].0 < k {
                proof {
                    assert forall|i: int| 0 <= i < mid + 1 implies (
                    #[trigger] self.entries()[i]).0 < k by {
                        if i < mid {
                            assert(self.entries()[i].0 < m);
                        }
                    }
                }
                low = mid + 1;
            } else {
                proof {
                    assert forall|i: int| mid <= i < self.entries().len() implies (
                    #[trigger] self.entries()[i]).0 >= k by {
                        if i > mid {
                            assert(self.entries()[i].0 > m);
                        }
                    }
                }
                high = mid;
            }
        }
        low
    }

    pub fn get(&self, k: u64) -> (r: Option<&V>)
        requires
            self.wf(),
        ensures
            match r {
                Some(v) => self@.dom().contains(k) && self@[k] == *v,
                None => !self@.dom().contains(k),
            },
    {
        let i = self.place(k);
        if i < self.entries.len() && self.entries[i].0 == k {
            proof {
                lemma_mapped_at(self.entries(), i as int);
            }
            Some(&self.entries[i].1)
        } else {
            proof {
                if keyed(self.entries(), k) {
                    let j = choose|j: int|
                        0 <= j < self.entries().len() && (#[trigger] self.entries()[j]).0 == k;
                    assert(j >= i);
                    assert(self.entries()[i as int].0 > k);
                }
            }
            None
        }
    }

    pub fn insert(&mut self, k: u64, v: V)
        requires
            old(self).wf(),
        ensures
            final(self).wf(),
            final(self)@ == old(self)@.insert(k, v),
    {
        let i = self.place(k);
        let ghost before = self.entries();
        if i < self.entries.len() && self.entries[i].0 == k {
            proof {
                lemma_mapped_update(before, i as int, v);
            }
            self.entries.set(i, (k, v));
        } else {
            proof {
                assert forall|j: int| i <= j < before.len() implies (#[trigger] before[j]).0 > k by {
                    assert(before[i as int].0 != k);
                }
                lemma_mapped_insert(before, i as int, k, v);
            }
            self.entries.insert(i, (k, v));
        }
    }

    /// Takes out what stands at the number.
    pub fn remove(&mut self, k: u64) -> (r: Option<V>)
        requires
            old(self).wf(),
        ensures
            final(self).wf(),
            final(self)@ == old(self)@.remove(k),
            match r {
                Some(v) => old(self)@.dom().contains(k) && old(self)@[k] == v,
                None => !old(self)@.dom().contains(k),
            },
    {
        let i = self.place(k);
        let ghost before = self.entries();
        if i < self.entries.len() && self.entries[i].0 == k {
            proof {
                lemma_mapped_at(before, i as int);
                lemma_mapped_remove(before, i as int);
            }
            let e = self.entries.remove(i);
            Some(e.1)
        } else {
            proof {
                if keyed(before, k) {
                    let j = choose|j: int| 0 <= j < before.len() && (#[trigger] before[j]).0 == k;
                    assert(j >= i);
                    assert(before[i as int].0 > k);
                }
                assert(self@.remove(k) =~= self@);
            }
            None
        }
    }
}

} // verus!
