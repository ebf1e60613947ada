//! A bounded selection of the largest files seen in one pass.
//!
//! The held files form a binary min-heap by size in a vector, so the
//! smallest held file is always at the front and an offer costs a
//! logarithmic number of steps. A ghost history records every file offered
//! and every file turned away or evicted, which is what the selection
//! invariant speaks of.

use crate::file_info::FileInfo;
use vstd::prelude::*;
use vstd::seq_lib::lemma_multiset_commutative;
use vstd::seq_lib::to_multiset_build;
use vstd::seq_lib::to_multiset_update;
use vstd::multiset::group_multiset_axioms;

verus! {

/// Largest first: each file is at least as large as every later one.
pub open spec fn sorted_by_size_desc(s: Seq<FileInfo>) -> bool {
    forall|i: int, j: int| 0 <= i < j < s.len() ==> #[trigger] s[i].size >= #[trigger] s[j].size
}

/// Every file of `held` is at least as large as every file of `rejected`.
pub open spec fn dominates(held: Seq<FileInfo>, rejected: Seq<FileInfo>) -> bool {
    forall|i: int, j: int|
        0 <= i < held.len() && 0 <= j < rejected.len() ==> #[trigger] held[i].size
            >= #[trigger] rejected[j].size
}

/// The total size in bytes of a sequence of files.
pub open spec fn size_sum(s: Seq<FileInfo>) -> int
    decreases s.len(),
{
    if s.len() == 0 {
        0
    } else {
        size_sum(s.drop_last()) + s.last().size
    }
}

pub proof fn lemma_size_sum_concat(a: Seq<FileInfo>, b: Seq<FileInfo>)
    ensures
        size_sum(a + b) == size_sum(a) + size_sum(b),
    decreases b.len(),
{
    if b.len() > 0 {
        lemma_size_sum_concat(a, b.drop_last());
        assert((a + b).drop_last() =~= a + b.drop_last());
    } else {
        assert(a + b =~= a);
    }
}

pub proof fn lemma_size_sum_update(s: Seq<FileInfo>, i: int, f: FileInfo)
    requires
        0 <= i < s.len(),
    ensures
        size_sum(s.update(i, f)) == size_sum(s) - s[i].size + f.size,
{
    let pre = s.subrange(0, i);
    let post = s.subrange(i + 1, s.len() as int);
    assert(s =~= (pre + seq![s[i]]) + post);
    assert(s.update(i, f) =~= (pre + seq![f]) + post);
    lemma_size_sum_concat(pre + seq![s[i]], post);
    lemma_size_sum_concat(pre + seq![f], post);
    lemma_size_sum_concat(pre, seq![s[i]]);
    lemma_size_sum_concat(pre, seq![f]);
    assert(seq![f].drop_last() =~= Seq::<FileInfo>::empty());
    assert(seq![s[i]].drop_last() =~= Seq::<FileInfo>::empty());
    assert(size_sum(seq![f]) == size_sum(Seq::<FileInfo>::empty()) + f.size);
    assert(size_sum(seq![s[i]]) == size_sum(Seq::<FileInfo>::empty()) + s[i].size);
}

pub proof fn lemma_size_sum_nonneg(s: Seq<FileInfo>)
    ensures
        size_sum(s) >= 0,
    decreases s.len(),
{
    if s.len() > 0 {
        lemma_size_sum_nonneg(s.drop_last());
    }
}

/// The multiset of a concatenation is the sum of the parts' multisets.
proof fn lemma_ms_concat(a: Seq<FileInfo>, b: Seq<FileInfo>)
    ensures
        (a + b).to_multiset() == a.to_multiset().add(b.to_multiset()),
{
    lemma_multiset_commutative(a, b);
}

/// Each file is at least as large as its parent, the file at `(i - 1) / 2`.
pub open spec fn is_min_heap(s: Seq<FileInfo>) -> bool {
    forall|i: int| 0 < i < s.len() ==> s[(i - 1) / 2].size <= #[trigger] s[i].size
}

/// The heap order holds but where `k` is below its parent; a child of `k`
/// is still no smaller than the parent of `k`.
spec fn heap_but_up(s: Seq<FileInfo>, k: int) -> bool {
    &&& forall|i: int| 0 < i < s.len() && i != k ==> s[(i - 1) / 2].size <= #[trigger] s[i].size
    &&& forall|i: int|
        0 < i < s.len() && (i - 1) / 2 == k && k > 0 ==> s[(k - 1) / 2].size
            <= #[trigger] s[i].size
}

/// The heap order holds but where `k` is above a child; a child of `k` is
/// still no smaller than the parent of `k`.
spec fn heap_but_down(s: Seq<FileInfo>, k: int) -> bool {
    &&& forall|i: int|
        0 < i < s.len() && (i - 1) / 2 != k ==> s[(i - 1) / 2].size <= #[trigger] s[i].size
    &&& forall|i: int|
        0 < i < s.len() && (i - 1) / 2 == k && k > 0 ==> s[(k - 1) / 2].size
            <= #[trigger] s[i].size
}

/// The front of a heap is its smallest file.
pub proof fn lemma_heap_front_min(s: Seq<FileInfo>, i: int)
    requires
        is_min_heap(s),
        0 <= i < s.len(),
    ensures
        s[0].size <= s[i].size,
    decreases i,
{
    if i > 0 {
        lemma_heap_front_min(s, (i - 1) / 2);
        assert(s[(i - 1) / 2].size <= s[i].size);
    }
}

/// Exchanging two files keeps the files and their total size.
proof fn lemma_swap(s: Seq<FileInfo>, i: int, j: int)
    requires
        0 <= i < s.len(),
        0 <= j < s.len(),
    ensures
        s.update(i, s[j]).update(j, s[i]).to_multiset() == s.to_multiset(),
        size_sum(s.update(i, s[j]).update(j, s[i])) == size_sum(s),
{
    broadcast use group_multiset_axioms;

    let t = s.update(i, s[j]);
    to_multiset_update(s, i, s[j]);
    to_multiset_update(t, j, s[i]);
    lemma_size_sum_update(s, i, s[j]);
    lemma_size_sum_update(t, j, s[i]);
    if i == j {
        assert(t.update(j, s[i]) =~= s);
    } else {
        assert(t[j] == s[j]);
        vstd::seq_lib::to_multiset_contains(s, s[i]);
        vstd::seq_lib::to_multiset_contains(s, s[j]);
        assert(s.contains(s[i]) && s.contains(s[j]));
        assert(s.to_multiset().insert(s[j]).remove(s[i]).insert(s[i]).remove(s[j])
            =~= s.to_multiset());
    }
}

/// Dominance over the rejected files depends only on which files are held.
proof fn lemma_dominates_perm(a: Seq<FileInfo>, b: Seq<FileInfo>, r: Seq<FileInfo>)
    requires
        a.to_multiset() == b.to_multiset(),
        dominates(a, r),
    ensures
        dominates(b, r),
{
    assert forall|i: int, j: int| 0 <= i < b.len() && 0 <= j < r.len() implies #[trigger] b[i].size
        >= #[trigger] r[j].size by {
        vstd::seq_lib::to_multiset_contains(b, b[i]);
        vstd::seq_lib::to_multiset_contains(a, b[i]);
        assert(b.contains(b[i]));
        let k = choose|k: int| 0 <= k < a.len() && a[k] == b[i];
        assert(a[k].size >= r[j].size);
    }
}

/// Relies on `slice::swap`: exchanges the elements at `a` and `b`. It panics
/// where either is out of bounds, which `requires` rules out.
pub assume_specification<T>[ <[T]>::swap ](s: &mut [T], a: usize, b: usize)
    requires
        a < old(s)@.len(),
        b < old(s)@.len(),
    ensures
        final(s)@ == old(s)@.update(a as int, old(s)@[b as int]).update(b as int, old(s)@[a as int]),
;

/// Moves the file at `k` up until its parent is no larger.
fn sift_up(v: &mut Vec<FileInfo>, k: usize)
    requires
        k < old(v)@.len(),
        heap_but_up(old(v)@, k as int),
    ensures
        is_min_heap(final(v)@),
        final(v)@.to_multiset() == old(v)@.to_multiset(),
        size_sum(final(v)@) == size_sum(old(v)@),
        final(v)@.len() == old(v)@.len(),
{
    let mut k = k;
    while k > 0 && v[(k - 1) / 2].size > v[k].size
        invariant
            k < v@.len(),
            v@.len() == old(v)@.len(),
            heap_but_up(v@, k as int),
            v@.to_multiset() == old(v)@.to_multiset(),
            size_sum(v@) == size_sum(old(v)@),
        decreases k,
    {
        let p = (k - 1) / 2;
        let ghost s = v@;
        v.as_mut_slice().swap(p, k);
        proof {
            lemma_swap(s, p as int, k as int);
            let t = v@;
            let ki = k as int;
            let pi = p as int;
            assert forall|i: int| 0 < i < t.len() && i != pi implies t[(i - 1) / 2].size
                <= #[trigger] t[i].size by {
                if i == ki {
                } else if (i - 1) / 2 == ki {
                    assert(s[(ki - 1) / 2].size <= s[i].size);
                } else if (i - 1) / 2 == pi {
                    assert(s[pi].size <= s[i].size);
                } else {
                    assert(s[(i - 1) / 2].size <= s[i].size);
                }
            }
            assert forall|i: int| 0 < i < t.len() && (i - 1) / 2 == pi && pi > 0 implies t[(pi - 1)
                / 2].size <= #[trigger] t[i].size by {
                assert(s[(pi - 1) / 2].size <= s[pi].size);
                if i != ki {
                    assert(s[pi].size <= s[i].size);
                }
            }
        }
        k = p;
    }
    proof {
        let s = v@;
        assert forall|i: int| 0 < i < s.len() implies s[(i - 1) / 2].size <= #[trigger] s[i].size by {
            if i == k as int {
            }
        }
    }
}

/// Moves the file at `k` down until no child is smaller.
fn sift_down(v: &mut Vec<FileInfo>, k: usize)
    requires
        k < old(v)@.len(),
        heap_but_down(old(v)@, k as int),
    ensures
        is_min_heap(final(v)@),
        final(v)@.to_multiset() == old(v)@.to_multiset(),
        size_sum(final(v)@) == size_sum(old(v)@),
        final(v)@.len() == old(v)@.len(),
{
    let n = v.len();
    let mut k = k;
    loop
        invariant
            k < v@.len(),
            v@.len() == n,
            n == old(v)@.len(),
            heap_but_down(v@, k as int),
            v@.to_multiset() == old(v)@.to_multiset(),
            size_sum(v@) == size_sum(old(v)@),
        ensures
            is_min_heap(v@),
            v@.to_multiset() == old(v)@.to_multiset(),
            size_sum(v@) == size_sum(old(v)@),
            v@.len() == n,
        decreases n - k,
    {
        if k >= n / 2 {
            proof {
                lemma_leaf_heap(v@, k as int);
            }
            break;
        }
        let left = 2 * k + 1;
        let right = left + 1;
        let m = if right < n && v[right].size < v[left].size {
            right
        } else {
            left
        };
        if v[k].size <= v[m].size {
            proof {
                lemma_settled_heap(v@, k as int, m as int);
            }
            break;
        }
        let ghost s = v@;
        v.as_mut_slice().swap(k, m);
        proof {
            lemma_swap(s, k as int, m as int);
            lemma_sift_down_step(s, k as int, m as int);
        }
        k = m;
    }
}

/// A file with no child in the heap leaves nothing out of order.
proof fn lemma_leaf_heap(s: Seq<FileInfo>, k: int)
    requires
        0 <= k < s.len(),
        k >= s.len() / 2,
        heap_but_down(s, k),
    ensures
        is_min_heap(s),
{
    assert forall|i: int| 0 < i < s.len() implies s[(i - 1) / 2].size <= #[trigger] s[i].size by {
        if (i - 1) / 2 == k {
            assert(false);
        }
    }
}

/// A file no larger than its smaller child leaves nothing out of order.
proof fn lemma_settled_heap(s: Seq<FileInfo>, k: int, m: int)
    requires
        0 <= k < s.len(),
        heap_but_down(s, k),
        m == 2 * k + 1 || m == 2 * k + 2,
        m < s.len(),
        m == 2 * k + 1 && 2 * k + 2 < s.len() ==> s[m].size <= s[2 * k + 2].size,
        m == 2 * k + 2 ==> s[m].size < s[2 * k + 1].size,
        s[k].size <= s[m].size,
    ensures
        is_min_heap(s),
{
    assert forall|i: int| 0 < i < s.len() implies s[(i - 1) / 2].size <= #[trigger] s[i].size by {
        if (i - 1) / 2 == k {
            assert(i == 2 * k + 1 || i == 2 * k + 2);
        }
    }
}

/// Exchanging a file with its smaller child, when that child is smaller,
/// moves the disorder down to the child's place.
proof fn lemma_sift_down_step(s: Seq<FileInfo>, k: int, m: int)
    requires
        0 <= k < s.len(),
        heap_but_down(s, k),
        m == 2 * k + 1 || m == 2 * k + 2,
        m < s.len(),
        m == 2 * k + 1 && 2 * k + 2 < s.len() ==> s[m].size <= s[2 * k + 2].size,
        m == 2 * k + 2 ==> s[m].size < s[2 * k + 1].size,
        s[m].size < s[k].size,
    ensures
        heap_but_down(s.update(k, s[m]).update(m, s[k]), m),
{
    let t = s.update(k, s[m]).update(m, s[k]);
    assert((m - 1) / 2 == k);
    assert forall|i: int| 0 < i < t.len() && (i - 1) / 2 != m implies t[(i - 1) / 2].size
        <= #[trigger] t[i].size by {
        if i == m {
        } else if (i - 1) / 2 == k {
            assert(i == 2 * k + 1 || i == 2 * k + 2);
        } else if i == k {
            assert(s[(k - 1) / 2].size <= s[m].size);
        } else {
            assert(s[(i - 1) / 2].size <= s[i].size);
        }
    }
    assert forall|i: int| 0 < i < t.len() && (i - 1) / 2 == m && m > 0 implies t[(m - 1) / 2].size
        <= #[trigger] t[i].size by {
        assert(s[(i - 1) / 2].size <= s[i].size);
    }
}

/// Removing the front by moving the last file there leaves the other files.
proof fn lemma_front_removed(s: Seq<FileInfo>)
    requires
        s.len() > 0,
    ensures
        s.update(0, s.last()).drop_last().to_multiset() == s.to_multiset().remove(s[0]),
{
    broadcast use group_multiset_axioms;

    let t = s.update(0, s.last()).drop_last();
    let u = s.update(0, s.last());
    assert(u =~= t.push(s.last()));
    to_multiset_build(t, s.last());
    to_multiset_update(s, 0, s.last());
    vstd::seq_lib::to_multiset_contains(s, s[0]);
    assert(s.contains(s[0]));
    assert forall|x: FileInfo| #[trigger] t.to_multiset().count(x) == s.to_multiset().remove(
        s[0],
    ).count(x) by {
        assert(t.to_multiset().insert(s.last()).count(x) == s.to_multiset().insert(s.last()).remove(
            s[0],
        ).count(x));
    }
    assert(t.to_multiset() =~= s.to_multiset().remove(s[0]));
}

pub struct TopFiles {
    capacity: usize,
    items: Vec<FileInfo>,
    offered: Ghost<Seq<FileInfo>>,
    rejected: Ghost<Seq<FileInfo>>,
}

impl View for TopFiles {
    type V = Seq<FileInfo>;

    /// The held files, in heap order: the smallest first.
    closed spec fn view(&self) -> Seq<FileInfo> {
        self.items@
    }
}

impl TopFiles {
    /// The bound fixed at construction.
    pub closed spec fn capacity(&self) -> nat {
        self.capacity as nat
    }

    /// Every file offered so far, in order of arrival.
    pub closed spec fn offered(&self) -> Seq<FileInfo> {
        self.offered@
    }

    /// The files offered so far that are not held: turned away on arrival or
    /// evicted later.
    pub closed spec fn rejected(&self) -> Seq<FileInfo> {
        self.rejected@
    }

    pub open spec fn wf(&self) -> bool {
        &&& self@.len() <= self.capacity()
        &&& self.capacity() <= self.offered().len() ==> self@.len() == self.capacity()
        &&& self.offered().len() < self.capacity() ==> self@.len() == self.offered().len()
        &&& is_min_heap(self@)
        &&& (self@ + self.rejected()).to_multiset() == self.offered().to_multiset()
        &&& dominates(self@, self.rejected())
    }

    /// What one offer of `file` does to the held files (the smallest held
    /// file is at the front): below capacity it joins them; at capacity it
    /// replaces the smallest only when strictly larger; otherwise, an equal
    /// or smaller file included, the held files stay as they are.
    pub open spec fn offer_outcome(before: TopFiles, after: TopFiles, file: FileInfo) -> bool {
        &&& before@.len() < before.capacity() ==> after@.to_multiset() == before@.to_multiset().insert(
            file,
        )
        &&& before@.len() == before.capacity() && before@.len() > 0 && file.size > before@[0].size
            ==> after@.to_multiset() == before@.to_multiset().remove(before@[0]).insert(file)
        &&& before@.len() == before.capacity() && (before@.len() == 0 || file.size
            <= before@[0].size) ==> after@ == before@
    }

    /// An empty selection that will hold at most `capacity` files.
    pub fn new(capacity: usize) -> (r: TopFiles)
        ensures
            r.wf(),
            r.capacity() == capacity,
            r.offered() == Seq::<FileInfo>::empty(),
            r@ == Seq::<FileInfo>::empty(),
    {
        let r = TopFiles {
            capacity,
            items: Vec::new(),
            offered: Ghost(Seq::empty()),
            rejected: Ghost(Seq::empty()),
        };
        proof {
            assert(r@ + r.rejected() =~= Seq::<FileInfo>::empty());
        }
        r
    }

    /// The number of files held.
    pub fn len(&self) -> (r: usize)
        ensures
            r == self@.len(),
    {
        self.items.len()
    }

    /// Offers one file. Below capacity it is always taken. At capacity it
    /// replaces the smallest held file only when strictly larger; otherwise
    /// the selection is unchanged.
    pub fn offer(&mut self, file: FileInfo)
        requires
            old(self).wf(),
        ensures
            final(self).wf(),
            final(self).capacity() == old(self).capacity(),
            final(self).offered() == old(self).offered().push(file),
            old(self)@.len() < old(self).capacity() ==> final(self)@.to_multiset()
                == old(self)@.to_multiset().insert(file),
            old(self)@.len() == old(self).capacity() && old(self)@.len() > 0 && file.size
                > old(self)@[0].size ==> final(self)@.to_multiset() == old(
                self,
            )@.to_multiset().remove(old(self)@[0]).insert(file),
            old(self)@.len() == old(self).capacity() && (old(self)@.len() == 0 || file.size
                <= old(self)@[0].size) ==> final(self)@ == old(self)@,
            size_sum(final(self)@) <= size_sum(old(self)@) + file.size,
    {
        broadcast use group_multiset_axioms;

        let ghost f = file;
        let ghost old_items = self.items@;
        let ghost old_rejected = self.rejected@;
        let n = self.items.len();
        if n < self.capacity {
            self.items.push(file);
            proof {
                let t = self.items@;
                assert(t.drop_last() =~= old_items);
                assert(heap_but_up(t, n as int)) by {
                    assert forall|i: int| 0 < i < t.len() && i != n as int implies t[(i - 1)
                        / 2].size <= #[trigger] t[i].size by {
                        assert(old_items[(i - 1) / 2].size <= old_items[i].size);
                    }
                }
                to_multiset_build(old_items, f);
            }
            sift_up(&mut self.items, n);
            proof {
                self.offered@ = self.offered@.push(f);
                lemma_take(old_items, old_rejected, old(self).offered(), f);
                vstd::seq_lib::to_multiset_len(old_items + old_rejected);
                vstd::seq_lib::to_multiset_len(old(self).offered());
                assert(old_rejected.len() == 0);
                lemma_ms_concat(old_items.push(f), old_rejected);
                lemma_ms_concat(self.items@, old_rejected);
            }
        } else if n > 0 && file.size > self.items[0].size {
            let ghost front = old_items[0];
            self.items.set(0, file);
            proof {
                let t = self.items@;
                assert(heap_but_down(t, 0)) by {
                    assert forall|i: int| 0 < i < t.len() && (i - 1) / 2 != 0 implies t[(i - 1)
                        / 2].size <= #[trigger] t[i].size by {
                        assert(old_items[(i - 1) / 2].size <= old_items[i].size);
                    }
                }
                to_multiset_update(old_items, 0, f);
                lemma_size_sum_update(old_items, 0, f);
                assert(dominates(t, old_rejected.push(front))) by {
                    let r = old_rejected.push(front);
                    assert forall|i: int, j: int| 0 <= i < t.len() && 0 <= j < r.len() implies #[trigger] t[i].size
                        >= #[trigger] r[j].size by {
                        lemma_heap_front_min(old_items, i);
                        if j < old_rejected.len() {
                            assert(old_items[0].size >= old_rejected[j].size);
                        }
                    }
                }
            }
            let ghost before_sift = self.items@;
            sift_down(&mut self.items, 0);
            proof {
                self.offered@ = self.offered@.push(f);
                self.rejected@ = old_rejected.push(front);
                lemma_evict(old_items, old_rejected, old(self).offered(), f);
                lemma_ms_concat(before_sift, self.rejected@);
                lemma_ms_concat(self.items@, self.rejected@);
                lemma_dominates_perm(before_sift, self.items@, self.rejected@);
            }
        } else {
            proof {
                self.offered@ = self.offered@.push(f);
                self.rejected@ = old_rejected.push(f);
                lemma_turn_away(old_items, old_rejected, old(self).offered(), f);
                if n > 0 {
                    assert forall|i: int, j: int|
                        0 <= i < old_items.len() && 0 <= j < self.rejected@.len() implies #[trigger] old_items[i].size
                        >= #[trigger] self.rejected@[j].size by {
                        lemma_heap_front_min(old_items, i);
                    }
                }
            }
        }
    }

    /// Hands out the held files, largest first, consuming the selection.
    pub fn drain_sorted(self) -> (r: Vec<FileInfo>)
        requires
            self.wf(),
        ensures
            r@.to_multiset() == self@.to_multiset(),
            r@.len() == self@.len(),
            sorted_by_size_desc(r@),
            size_sum(r@) == size_sum(self@),
    {
        broadcast use group_multiset_axioms;

        let ghost all = self@;
        let mut heap = self.items;
        let mut ascending: Vec<FileInfo> = Vec::new();
        while heap.len() > 0
            invariant
                is_min_heap(heap@),
                (ascending@ + heap@).to_multiset() == all.to_multiset(),
                ascending@.len() + heap@.len() == all.len(),
                size_sum(ascending@) + size_sum(heap@) == size_sum(all),
                forall|i: int, j: int|
                    0 <= i < j < ascending@.len() ==> #[trigger] ascending@[i].size
                        <= #[trigger] ascending@[j].size,
                dominates(heap@, ascending@),
            decreases heap@.len(),
        {
            let ghost s = heap@;
            let ghost asc = ascending@;
            let least = heap.swap_remove(0);
            proof {
                lemma_front_removed(s);
                lemma_size_sum_update(s, 0, s.last());
                let u = s.update(0, s.last());
                assert(u.drop_last() =~= heap@);
                assert(size_sum(u) == size_sum(heap@) + u.last().size);
                lemma_drain_front(s);
            }
            let ghost before_sift = heap@;
            if heap.len() > 0 {
                sift_down(&mut heap, 0);
            }
            ascending.push(least);
            proof {
                assert(ascending@.drop_last() =~= asc);
                lemma_drain_step(asc, s, before_sift, heap@, ascending@, all);
            }
        }
        let mut r: Vec<FileInfo> = Vec::new();
        while ascending.len() > 0
            invariant
                (r@ + ascending@).to_multiset() == all.to_multiset(),
                r@.len() + ascending@.len() == all.len(),
                size_sum(r@) + size_sum(ascending@) == size_sum(all),
                forall|i: int, j: int|
                    0 <= i < j < ascending@.len() ==> #[trigger] ascending@[i].size
                        <= #[trigger] ascending@[j].size,
                sorted_by_size_desc(r@),
                dominates(r@, ascending@),
            decreases ascending@.len(),
        {
            let ghost asc = ascending@;
            let ghost done = r@;
            let x = ascending.pop().unwrap();
            r.push(x);
            proof {
                assert(asc =~= ascending@.push(x));
                assert(r@.drop_last() =~= done);
                to_multiset_build(ascending@, x);
                to_multiset_build(done, x);
                lemma_ms_concat(done, asc);
                lemma_ms_concat(r@, ascending@);
                assert forall|i: int, j: int| 0 <= i < j < r@.len() implies #[trigger] r@[i].size
                    >= #[trigger] r@[j].size by {
                    if j == r@.len() - 1 {
                        assert(done[i].size >= asc[asc.len() - 1].size);
                    }
                }
                assert forall|i: int, j: int| 0 <= i < r@.len() && 0 <= j < ascending@.len() implies #[trigger] r@[i].size
                    >= #[trigger] ascending@[j].size by {
                    assert(asc[j] == ascending@[j]);
                    if i < done.len() {
                        assert(done[i].size >= asc[j].size);
                    } else {
                        assert(asc[j].size <= asc[asc.len() - 1].size);
                    }
                }
            }
        }
        proof {
            assert(r@ + ascending@ =~= r@);
        }
        r
    }
}

/// After the front of a heap is removed and the last file moved there, the
/// rest is a heap but at the front, and no file is smaller than the removed.
proof fn lemma_drain_front(s: Seq<FileInfo>)
    requires
        is_min_heap(s),
        s.len() > 0,
    ensures
        s.len() > 1 ==> heap_but_down(s.update(0, s.last()).drop_last(), 0),
        forall|i: int|
            0 <= i < s.len() - 1 ==> #[trigger] s.update(0, s.last()).drop_last()[i].size
                >= s[0].size,
{
    let t = s.update(0, s.last()).drop_last();
    assert forall|i: int| 0 <= i < t.len() implies #[trigger] t[i].size >= s[0].size by {
        if i == 0 {
            lemma_heap_front_min(s, s.len() - 1);
        } else {
            lemma_heap_front_min(s, i);
        }
    }
    if t.len() > 0 {
        assert forall|i: int| 0 < i < t.len() && (i - 1) / 2 != 0 implies t[(i - 1) / 2].size
            <= #[trigger] t[i].size by {
            assert(s[(i - 1) / 2].size <= s[i].size);
        }
    }
}

/// One step of draining: the removed front joins the ascending run.
proof fn lemma_drain_step(
    asc: Seq<FileInfo>,
    s: Seq<FileInfo>,
    before_sift: Seq<FileInfo>,
    t: Seq<FileInfo>,
    a: Seq<FileInfo>,
    all: Seq<FileInfo>,
)
    requires
        is_min_heap(s),
        s.len() > 0,
        before_sift == s.update(0, s.last()).drop_last(),
        t.to_multiset() == before_sift.to_multiset(),
        a == asc.push(s[0]),
        (asc + s).to_multiset() == all.to_multiset(),
        forall|i: int, j: int|
            0 <= i < j < asc.len() ==> #[trigger] asc[i].size <= #[trigger] asc[j].size,
        dominates(s, asc),
        forall|i: int| 0 <= i < s.len() - 1 ==> #[trigger] before_sift[i].size >= s[0].size,
    ensures
        (a + t).to_multiset() == all.to_multiset(),
        forall|i: int, j: int| 0 <= i < j < a.len() ==> #[trigger] a[i].size <= #[trigger] a[j].size,
        dominates(t, a),
{
    broadcast use group_multiset_axioms;

    lemma_front_removed(s);
    to_multiset_build(asc, s[0]);
    lemma_ms_concat(asc, s);
    lemma_ms_concat(a, t);
    vstd::seq_lib::to_multiset_contains(s, s[0]);
    assert(s.contains(s[0]));
    assert(asc.to_multiset().insert(s[0]).add(s.to_multiset().remove(s[0])) =~= asc.to_multiset().add(
        s.to_multiset(),
    ));
    assert forall|i: int, j: int| 0 <= i < j < a.len() implies #[trigger] a[i].size
        <= #[trigger] a[j].size by {
        if j == a.len() - 1 {
            assert(s[0].size >= asc[i].size);
        }
    }
    let bs = before_sift;
    assert forall|i: int, j: int| 0 <= i < bs.len() && 0 <= j < a.len() implies #[trigger] bs[i].size
        >= #[trigger] a[j].size by {
        if j < asc.len() {
            let k = if i == 0 {
                s.len() - 1
            } else {
                i
            };
            assert(bs[i] == s[k]);
            assert(s[k].size >= asc[j].size);
        }
    }
    lemma_dominates_perm(bs, t, a);
}

/// Taking a file below capacity keeps held plus rejected equal to offered.
proof fn lemma_take(items: Seq<FileInfo>, rejected: Seq<FileInfo>, offered: Seq<FileInfo>, f: FileInfo)
    requires
        (items + rejected).to_multiset() == offered.to_multiset(),
    ensures
        (items.push(f) + rejected).to_multiset() == offered.push(f).to_multiset(),
{
    broadcast use group_multiset_axioms;

    lemma_ms_concat(items, rejected);
    lemma_ms_concat(items.push(f), rejected);
    to_multiset_build(items, f);
    to_multiset_build(offered, f);
    assert(items.to_multiset().insert(f).add(rejected.to_multiset()) =~= items.to_multiset().add(
        rejected.to_multiset(),
    ).insert(f));
}

/// Evicting the smallest held file for a larger one keeps held plus rejected
/// equal to offered.
proof fn lemma_evict(items: Seq<FileInfo>, rejected: Seq<FileInfo>, offered: Seq<FileInfo>, f: FileInfo)
    requires
        (items + rejected).to_multiset() == offered.to_multiset(),
        items.len() > 0,
    ensures
        (items.update(0, f) + rejected.push(items[0])).to_multiset() == offered.push(
            f,
        ).to_multiset(),
{
    broadcast use group_multiset_axioms;

    to_multiset_update(items, 0, f);
    to_multiset_build(rejected, items[0]);
    to_multiset_build(offered, f);
    lemma_ms_concat(items, rejected);
    lemma_ms_concat(items.update(0, f), rejected.push(items[0]));
    assert(items.to_multiset().count(items[0]) > 0) by {
        vstd::seq_lib::to_multiset_contains(items, items[0]);
        assert(items.contains(items[0]));
    }
    assert(items.to_multiset().insert(f).remove(items[0]).add(rejected.to_multiset().insert(items[0]))
        =~= items.to_multiset().add(rejected.to_multiset()).insert(f));
}

/// Turning a file away keeps held plus rejected equal to offered.
proof fn lemma_turn_away(
    items: Seq<FileInfo>,
    rejected: Seq<FileInfo>,
    offered: Seq<FileInfo>,
    f: FileInfo,
)
    requires
        (items + rejected).to_multiset() == offered.to_multiset(),
    ensures
        (items + rejected.push(f)).to_multiset() == offered.push(f).to_multiset(),
{
    broadcast use group_multiset_axioms;

    lemma_ms_concat(items, rejected);
    lemma_ms_concat(items, rejected.push(f));
    to_multiset_build(rejected, f);
    to_multiset_build(offered, f);
    assert(items.to_multiset().add(rejected.to_multiset().insert(f)) =~= items.to_multiset().add(
        rejected.to_multiset(),
    ).insert(f));
}

/// For any capacity and any sequence of offered files, the selection holds
/// exactly as many files as the smaller of the capacity and the number
/// offered; each held file was offered; and every held file is at least as
/// large as every offered file that is not held.
pub proof fn lemma_holds_largest(sel: &TopFiles)
    requires
        sel.wf(),
    ensures
        sel@.len() == if sel.capacity() < sel.offered().len() {
            sel.capacity()
        } else {
            sel.offered().len()
        },
        sel@.to_multiset().subset_of(sel.offered().to_multiset()),
        forall|f: FileInfo, i: int|
            #![trigger sel.offered().to_multiset().sub(sel@.to_multiset()).count(f), sel@[i]]
            0 <= i < sel@.len() && sel.offered().to_multiset().sub(sel@.to_multiset()).count(f)
                > 0 ==> sel@[i].size >= f.size,
{
    broadcast use group_multiset_axioms;

    let held = sel@;
    let rej = sel.rejected();
    let offered = sel.offered();
    lemma_ms_concat(held, rej);
    vstd::seq_lib::to_multiset_len(held + rej);
    vstd::seq_lib::to_multiset_len(offered);
    assert(offered.to_multiset().sub(held.to_multiset()) =~= rej.to_multiset());
    assert forall|f: FileInfo, i: int|
        #![trigger offered.to_multiset().sub(held.to_multiset()).count(f), held[i]]
        0 <= i < held.len() && offered.to_multiset().sub(held.to_multiset()).count(f)
            > 0 implies held[i].size >= f.size by {
        vstd::seq_lib::to_multiset_contains(rej, f);
        assert(rej.to_multiset().count(f) > 0);
        assert(rej.contains(f));
        let j = choose|j: int| 0 <= j < rej.len() && rej[j] == f;
        assert(held[i].size >= rej[j].size);
    }
}

/// Two orderings by size, largest first, of the same files agree in the size
/// at every position.
pub proof fn lemma_sorted_sizes_unique(a: Seq<FileInfo>, b: Seq<FileInfo>)
    requires
        a.to_multiset() == b.to_multiset(),
        sorted_by_size_desc(a),
        sorted_by_size_desc(b),
    ensures
        a.len() == b.len(),
        forall|i: int| 0 <= i < a.len() ==> #[trigger] a[i].size == b[i].size,
    decreases a.len(),
{
    broadcast use group_multiset_axioms;

    vstd::seq_lib::to_multiset_len(a);
    vstd::seq_lib::to_multiset_len(b);
    if a.len() > 0 {
        let x = a[0];
        vstd::seq_lib::to_multiset_contains(a, x);
        vstd::seq_lib::to_multiset_contains(b, x);
        vstd::seq_lib::to_multiset_contains(b, b[0]);
        vstd::seq_lib::to_multiset_contains(a, b[0]);
        assert(a.contains(x));
        assert(b.contains(x));
        assert(b.contains(b[0]));
        let j = choose|j: int| 0 <= j < b.len() && b[j] == x;
        let k = choose|k: int| 0 <= k < a.len() && a[k] == b[0];
        assert(a[0].size >= a[k].size);
        assert(b[0].size >= b[j].size);
        assert(a[0].size == b[0].size);
        let rest_a = a.drop_first();
        let rest_b = b.remove(j);
        vstd::seq_lib::to_multiset_remove(a, 0);
        vstd::seq_lib::to_multiset_remove(b, j);
        assert(a.remove(0) =~= rest_a);
        assert(sorted_by_size_desc(rest_b)) by {
            assert forall|p: int, q: int| 0 <= p < q < rest_b.len() implies #[trigger] rest_b[p].size
                >= #[trigger] rest_b[q].size by {
                let pp = if p < j { p } else { p + 1 };
                let qq = if q < j { q } else { q + 1 };
                assert(rest_b[p] == b[pp] && rest_b[q] == b[qq]);
            }
        }
        assert(sorted_by_size_desc(rest_a)) by {
            assert forall|p: int, q: int| 0 <= p < q < rest_a.len() implies #[trigger] rest_a[p].size
                >= #[trigger] rest_a[q].size by {
                assert(rest_a[p] == a[p + 1] && rest_a[q] == a[q + 1]);
            }
        }
        lemma_sorted_sizes_unique(rest_a, rest_b);
        assert forall|i: int| 0 <= i < a.len() implies #[trigger] a[i].size == b[i].size by {
            if i > 0 {
                assert(a[i] == rest_a[i - 1]);
                if i - 1 < j {
                    assert(rest_b[i - 1] == b[i - 1]);
                    assert(b[0].size >= b[i].size && b[i].size >= b[j].size);
                    assert(b[i - 1].size >= b[i].size);
                    assert(b[0].size >= b[i - 1].size);
                } else {
                    assert(rest_b[i - 1] == b[i]);
                }
            }
        }
    }
}

/// When no more files were offered than the capacity, the selection holds
/// every offered file, each as often as offered; so what draining it yields
/// (the held files, largest first) has at every position the size that any
/// other ordering of the offered files by size, largest first, has there.
pub proof fn lemma_drain_sorts_all(sel: &TopFiles, drained: Seq<FileInfo>, sorted: Seq<FileInfo>)
    requires
        sel.wf(),
        sel.offered().len() <= sel.capacity(),
        drained.to_multiset() == sel@.to_multiset(),
        sorted_by_size_desc(drained),
        sorted.to_multiset() == sel.offered().to_multiset(),
        sorted_by_size_desc(sorted),
    ensures
        sel@.to_multiset() == sel.offered().to_multiset(),
        drained.len() == sorted.len(),
        forall|i: int| 0 <= i < sorted.len() ==> #[trigger] drained[i].size == sorted[i].size,
{
    broadcast use group_multiset_axioms;

    lemma_ms_concat(sel@, sel.rejected());
    vstd::seq_lib::to_multiset_len(sel@ + sel.rejected());
    vstd::seq_lib::to_multiset_len(sel.offered());
    assert(sel.rejected().len() == 0);
    assert(sel@ + sel.rejected() =~= sel@);
    lemma_sorted_sizes_unique(drained, sorted);
}

} // verus!
