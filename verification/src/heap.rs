//! A binary min-heap of keyed entries, used to pick the point with the
//! smallest effective area next.
use vstd::multiset::Multiset;
use vstd::prelude::*;

verus! {

broadcast use vstd::seq_lib::group_to_multiset_ensures;

/// A heap entry: the key it is ordered by, the point index, and the
/// generation of the point's key when the entry was pushed.
#[derive(Debug, Clone, Copy, PartialEq, Eq, Structural)]
pub struct HeapEntry {
    pub key: u64,
    pub idx: usize,
    pub gen: u64,
}

pub open spec fn parent(i: int) -> int {
    (i - 1) / 2
}

/// Min-heap order between every entry and its parent.
pub open spec fn heap_ordered(s: Seq<HeapEntry>) -> bool {
    forall|i: int| 0 < i < s.len() ==> s[parent(i)].key <= #[trigger] s[i].key
}

/// Every entry of the multiset has a key no smaller than `k`.
pub open spec fn all_keys_at_least(m: Multiset<HeapEntry>, k: u64) -> bool {
    forall|x: HeapEntry| m.contains(x) ==> k <= x.key
}

/// A min-heap of [`HeapEntry`] values; its view is the multiset of entries.
pub struct MinHeap {
    items: Vec<HeapEntry>,
}

impl View for MinHeap {
    type V = Multiset<HeapEntry>;

    closed spec fn view(&self) -> Multiset<HeapEntry> {
        self.items@.to_multiset()
    }
}

/// Heap order holds everywhere but between `k` and its parent, and `k`'s
/// parent is no larger than `k`'s children.
pub open spec fn hole_up(s: Seq<HeapEntry>, k: int) -> bool {
    &&& forall|i: int| 0 < i < s.len() && i != k ==> s[parent(i)].key <= #[trigger] s[i].key
    &&& k > 0 ==> forall|c: int|
        0 < c < s.len() && parent(c) == k ==> s[parent(k)].key <= #[trigger] s[c].key
}

/// Heap order holds everywhere but between `k` and its children, and `k`'s
/// parent is no larger than `k`'s children.
pub open spec fn hole_down(s: Seq<HeapEntry>, k: int) -> bool {
    &&& forall|i: int| 0 < i < s.len() && parent(i) != k ==> s[parent(i)].key <= #[trigger] s[i].key
    &&& k > 0 ==> forall|c: int|
        0 < c < s.len() && parent(c) == k ==> s[parent(k)].key <= #[trigger] s[c].key
}

pub open spec fn swapped(s: Seq<HeapEntry>, i: int, j: int) -> Seq<HeapEntry> {
    s.update(i, s[j]).update(j, s[i])
}

proof fn lemma_sift_up_step(s: Seq<HeapEntry>, k: int)
    requires
        0 < k < s.len(),
        hole_up(s, k),
        s[k].key < s[parent(k)].key,
    ensures
        hole_up(swapped(s, k, parent(k)), parent(k)),
{
    let p = parent(k);
    let t = swapped(s, k, p);
    assert forall|i: int| 0 < i < t.len() && i != p implies t[parent(i)].key <= #[trigger] t[i].key by {
        if i == k {
        } else if parent(i) == k {
        } else if parent(i) == p {
            assert(s[p].key <= s[i].key);
        } else {
            assert(s[parent(i)].key <= s[i].key);
        }
    }
    if p > 0 {
        assert forall|c: int| 0 < c < t.len() && parent(c) == p implies t[parent(p)].key
            <= #[trigger] t[c].key by {
            assert(s[parent(p)].key <= s[p].key);
            if c != k {
                assert(s[p].key <= s[c].key);
            }
        }
    }
}

proof fn lemma_sift_up_done(s: Seq<HeapEntry>, k: int)
    requires
        0 <= k < s.len(),
        hole_up(s, k),
        k == 0 || s[parent(k)].key <= s[k].key,
    ensures
        heap_ordered(s),
{
}

proof fn lemma_sift_down_step(s: Seq<HeapEntry>, k: int, m: int)
    requires
        0 <= k < s.len(),
        m < s.len(),
        m == 2 * k + 1 || m == 2 * k + 2,
        2 * k + 1 < s.len() ==> s[m].key <= s[2 * k + 1].key,
        2 * k + 2 < s.len() ==> s[m].key <= s[2 * k + 2].key,
        hole_down(s, k),
        s[m].key < s[k].key,
    ensures
        hole_down(swapped(s, k, m), m),
{
    let t = swapped(s, k, m);
    assert(parent(m) == k);
    assert forall|i: int| 0 < i < t.len() && parent(i) != m implies t[parent(i)].key
        <= #[trigger] t[i].key by {
        if i == m {
        } else if i == k {
            assert(s[parent(k)].key <= s[m].key);
        } else if parent(i) == k {
            assert(i == 2 * k + 1 || i == 2 * k + 2);
        } else {
            assert(s[parent(i)].key <= s[i].key);
        }
    }
    assert forall|c: int| 0 < c < t.len() && parent(c) == m implies t[parent(m)].key
        <= #[trigger] t[c].key by {
        assert(s[parent(c)].key <= s[c].key);
    }
}

proof fn lemma_sift_down_done(s: Seq<HeapEntry>, k: int)
    requires
        0 <= k < s.len(),
        hole_down(s, k),
        2 * k + 1 < s.len() ==> s[k].key <= s[2 * k + 1].key,
        2 * k + 2 < s.len() ==> s[k].key <= s[2 * k + 2].key,
    ensures
        heap_ordered(s),
{
    assert forall|i: int| 0 < i < s.len() implies s[parent(i)].key <= #[trigger] s[i].key by {
        if parent(i) == k {
            assert(i == 2 * k + 1 || i == 2 * k + 2);
        }
    }
}

proof fn lemma_root_min(s: Seq<HeapEntry>, i: int)
    requires
        heap_ordered(s),
        0 <= i < s.len(),
    ensures
        s[0].key <= s[i].key,
    decreases i,
{
    if i > 0 {
        lemma_root_min(s, parent(i));
    }
}

proof fn lemma_swap_multiset(s: Seq<HeapEntry>, i: int, j: int)
    requires
        0 <= i < s.len(),
        0 <= j < s.len(),
    ensures
        s.update(i, s[j]).update(j, s[i]).to_multiset() =~= s.to_multiset(),
{
    let s1 = s.update(i, s[j]);
    assert(s1.to_multiset() == s.to_multiset().insert(s[j]).remove(s[i]));
    assert(s1.update(j, s[i]).to_multiset() == s1.to_multiset().insert(s[i]).remove(s1[j]));
    if i == j {
        assert(s1 =~= s);
        assert(s.update(i, s[j]).update(j, s[i]) =~= s);
    } else {
        assert(s1[j] == s[j]);
    }
}

impl MinHeap {
    /// Heap order holds.
    pub closed spec fn wf(&self) -> bool {
        heap_ordered(self.items@)
    }

    pub fn new() -> (h: MinHeap)
        ensures
            h.wf(),
            h@ =~= Multiset::empty(),
    {
        MinHeap { items: Vec::new() }
    }

    fn swap(&mut self, i: usize, j: usize)
        requires
            i < old(self).items@.len(),
            j < old(self).items@.len(),
        ensures
            final(self).items@ == old(self).items@.update(i as int, old(self).items@[j as int]).update(
                j as int,
                old(self).items@[i as int],
            ),
            final(self)@ == old(self)@,
    {
        let a = self.items[i];
        let b = self.items[j];
        self.items.set(i, b);
        self.items.set(j, a);
        proof {
            lemma_swap_multiset(old(self).items@, i as int, j as int);
        }
    }

    /// Adds an entry.
    pub fn push(&mut self, e: HeapEntry)
        requires
            old(self).wf(),
        ensures
            final(self).wf(),
            final(self)@ == old(self)@.insert(e),
    {
        self.items.push(e);
        let mut k: usize = self.items.len() - 1;
        loop
            invariant
                0 <= k < self.items@.len(),
                self@ == old(self)@.insert(e),
                hole_up(self.items@, k as int),
            ensures
                self@ == old(self)@.insert(e),
                heap_ordered(self.items@),
            decreases k,
        {
            if k == 0 {
                proof {
                    lemma_sift_up_done(self.items@, 0);
                }
                break;
            }
            let p = (k - 1) / 2;
            if self.items[p].key <= self.items[k].key {
                proof {
                    lemma_sift_up_done(self.items@, k as int);
                }
                break;
            }
            proof {
                lemma_sift_up_step(self.items@, k as int);
            }
            self.swap(k, p);
            k = p;
        }
    }

    /// Removes and returns an entry with the smallest key; `None` when empty.
    #[verifier::spinoff_prover]
    #[verifier::rlimit(40)]
    pub fn pop(&mut self) -> (res: Option<HeapEntry>)
        requires
            old(self).wf(),
        ensures
            final(self).wf(),
            match res {
                None => old(self)@.len() == 0 && final(self)@ == old(self)@,
                Some(e) => old(self)@ == final(self)@.insert(e) && all_keys_at_least(
                    old(self)@,
                    e.key,
                ),
            },
    {
        if self.items.len() == 0 {
            return None;
        }
        let top = self.items[0];
        proof {
            assert forall|x: HeapEntry| old(self)@.contains(x) implies top.key <= x.key by {
                let j = choose|j: int| 0 <= j < old(self).items@.len() && old(self).items@[j] == x;
                lemma_root_min(old(self).items@, j);
            }
        }
        let last = self.items.pop().unwrap();
        if self.items.len() == 0 {
            assert(old(self).items@ =~= seq![top]);
            return Some(top);
        }
        let ghost s1 = self.items@;
        self.items.set(0, last);
        assert(old(self).items@ =~= s1.push(last));
        assert(s1[0] == top);
        let n = self.items.len();
        let mut k: usize = 0;
        assert(hole_down(self.items@, 0));
        loop
            invariant
                n == self.items@.len(),
                k < n,
                self@.insert(top) == old(self)@,
                hole_down(self.items@, k as int),
            ensures
                self@.insert(top) == old(self)@,
                heap_ordered(self.items@),
            decreases n - k,
        {
            if k >= n / 2 {
                proof {
                    lemma_sift_down_done(self.items@, k as int);
                }
                break;
            }
            let l = 2 * k + 1;
            let r = l + 1;
            let m = if r < n && self.items[r].key < self.items[l].key {
                r
            } else {
                l
            };
            if self.items[k].key <= self.items[m].key {
                proof {
                    lemma_sift_down_done(self.items@, k as int);
                }
                break;
            }
            proof {
                lemma_sift_down_step(self.items@, k as int, m as int);
            }
            self.swap(k, m);
            k = m;
        }
        Some(top)
    }
}

} // verus!
