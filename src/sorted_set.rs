//! An ordered set of `usize` keys kept as a strictly increasing vector.
use vstd::prelude::*;

verus! {

/// Strictly increasing sequence.
pub open spec fn strictly_sorted(s: Seq<usize>) -> bool {
    forall|i: int, j: int| 0 <= i < j < s.len() ==> s[i] < s[j]
}

/// A strictly increasing sequence whose elements lie below `n` has at most `n` elements.
pub proof fn lemma_sorted_len_bound(s: Seq<usize>, n: int)
    requires
        0 <= n,
        strictly_sorted(s),
        forall|i: int| 0 <= i < s.len() ==> s[i] < n,
    ensures
        s.len() <= n,
    decreases s.len(),
{
    if s.len() > 0 {
        let t = s.drop_last();
        let m = s[s.len() - 1] as int;
        assert forall|i: int| 0 <= i < t.len() implies t[i] < m by {
            assert(s[i] < s[s.len() - 1]);
        }
        lemma_sorted_len_bound(t, m);
        assert(s[s.len() - 1] < n);
    }
}

/// Two strictly increasing sequences with the same elements are equal.
pub proof fn lemma_sorted_unique(xs: Seq<usize>, ys: Seq<usize>)
    requires
        strictly_sorted(xs),
        strictly_sorted(ys),
        xs.to_set() == ys.to_set(),
    ensures
        xs == ys,
    decreases xs.len(),
{
    if xs.len() == 0 {
        if ys.len() > 0 {
            assert(ys.to_set().contains(ys[0]));
            assert(!xs.to_set().contains(ys[0]));
        }
        assert(xs =~= ys);
    } else {
        assert(xs.to_set().contains(xs[0]));
        assert(ys.contains(xs[0]));
        assert(ys.len() > 0);
        assert(ys.to_set().contains(ys[0]));
        assert(xs.contains(ys[0]));
        let j1 = choose|j: int| 0 <= j < ys.len() && ys[j] == xs[0];
        let j2 = choose|j: int| 0 <= j < xs.len() && xs[j] == ys[0];
        assert(xs[0] == ys[0]) by {
            if j1 > 0 {
                assert(ys[0] < ys[j1]);
            }
            if j2 > 0 {
                assert(xs[0] < xs[j2]);
            }
        }
        let xt = xs.drop_first();
        let yt = ys.drop_first();
        assert forall|x: usize| xt.to_set().contains(x) implies yt.to_set().contains(x) by {
            let k = choose|k: int| 0 <= k < xt.len() && xt[k] == x;
            assert(xs[k + 1] == x);
            assert(xs.to_set().contains(x));
            let m = choose|m: int| 0 <= m < ys.len() && ys[m] == x;
            assert(m != 0);
            assert(yt[m - 1] == x);
        }
        assert forall|x: usize| yt.to_set().contains(x) implies xt.to_set().contains(x) by {
            let k = choose|k: int| 0 <= k < yt.len() && yt[k] == x;
            assert(ys[k + 1] == x);
            assert(ys.to_set().contains(x));
            let m = choose|m: int| 0 <= m < xs.len() && xs[m] == x;
            assert(m != 0);
            assert(xt[m - 1] == x);
        }
        assert(xt.to_set() =~= yt.to_set());
        lemma_sorted_unique(xt, yt);
        assert(xt.len() == yt.len());
        assert(xt.len() == xs.len() - 1);
        assert(yt.len() == ys.len() - 1);
        assert(xs =~= ys) by {
            assert forall|i: int| 0 <= i < xs.len() implies xs[i] == ys[i] by {
                if i > 0 {
                    assert(xs[i] == xt[i - 1]);
                    assert(ys[i] == yt[i - 1]);
                }
            }
        }
    }
}

/// Position of `x` in the strictly increasing `items`, by binary search: the number of
/// elements below `x`, and whether `x` itself is present (then it stands at that position).
pub fn find(items: &Vec<usize>, x: usize) -> (r: (usize, bool))
    requires
        strictly_sorted(items@),
    ensures
        r.0 <= items@.len(),
        forall|j: int| 0 <= j < r.0 ==> items@[j] < x,
        forall|j: int| r.0 <= j < items@.len() ==> items@[j] >= x,
        r.1 == items@.contains(x),
        r.1 ==> items@[r.0 as int] == x,
{
    let mut lo: usize = 0;
    let mut hi: usize = items.len();
    while lo < hi
        invariant
            strictly_sorted(items@),
            lo <= hi <= items@.len(),
            forall|j: int| 0 <= j < lo ==> items@[j] < x,
            forall|j: int| hi <= j < items@.len() ==> items@[j] >= x,
        decreases hi - lo,
    {
        let mid = lo + (hi - lo) / 2;
        if items[mid] < x {
            lo = mid + 1;
        } else {
            hi = mid;
        }
    }
    let found = lo < items.len() && items[lo] == x;
    proof {
        if !found {
            assert forall|j: int| 0 <= j < items@.len() implies items@[j] != x by {
                if j > lo as int {
                    assert(items@[lo as int] < items@[j]);
                }
            }
        }
    }
    (lo, found)
}

/// An ordered set of keys; equality and iteration follow the ascending order.
#[derive(Debug, Hash)]
pub struct SortedSet {
    items: Vec<usize>,
}

impl View for SortedSet {
    type V = Set<usize>;

    open spec fn view(&self) -> Set<usize> {
        self.seq().to_set()
    }
}

impl SortedSet {
    /// The elements in ascending order.
    pub closed spec fn seq(&self) -> Seq<usize> {
        self.items@
    }

    pub open spec fn wf(&self) -> bool {
        strictly_sorted(self.seq())
    }

    /// Every element lies below `n`.
    pub open spec fn bounded_by(&self, n: int) -> bool {
        forall|x: usize| self@.contains(x) ==> x < n
    }

    /// A well-formed set of keys below `n` has at most `n` elements.
    pub proof fn lemma_len_bound(&self, n: int)
        requires
            0 <= n,
            self.wf(),
            self.bounded_by(n),
        ensures
            self.seq().len() <= n,
    {
        assert forall|i: int| 0 <= i < self.seq().len() implies self.seq()[i] < n by {
            assert(self@.contains(self.seq()[i]));
        }
        lemma_sorted_len_bound(self.seq(), n);
    }

    /// The number of elements of a well-formed set is the length of its sequence.
    pub proof fn lemma_len_card(&self)
        requires
            self.wf(),
        ensures
            self@.finite(),
            self@.len() == self.seq().len(),
    {
        assert(self.seq().no_duplicates()) by {
            assert forall|i: int, j: int| 0 <= i < self.seq().len() && 0 <= j < self.seq().len() && i != j implies self.seq()[i] != self.seq()[j] by {
                if i < j {
                    assert(self.seq()[i] < self.seq()[j]);
                } else {
                    assert(self.seq()[j] < self.seq()[i]);
                }
            }
        }
        self.seq().unique_seq_to_set();
        vstd::seq_lib::seq_to_set_is_finite(self.seq());
    }

    /// Two well-formed sets hold the same sequence exactly when they hold the same elements.
    pub proof fn lemma_seq_eq(&self, other: &SortedSet)
        requires
            self.wf(),
            other.wf(),
        ensures
            (self.seq() == other.seq()) == (self@ == other@),
    {
        if self@ == other@ {
            lemma_sorted_unique(self.seq(), other.seq());
        }
    }

    pub fn new() -> (r: SortedSet)
        ensures
            r.wf(),
            r@ == Set::<usize>::empty(),
            r.seq().len() == 0,
    {
        let r = SortedSet { items: Vec::new() };
        assert(r@ =~= Set::<usize>::empty());
        r
    }

    pub fn singleton(x: usize) -> (r: SortedSet)
        ensures
            r.wf(),
            r@ == set![x],
    {
        let mut r = SortedSet::new();
        r.add(x);
        r
    }

    pub fn len(&self) -> (r: usize)
        ensures
            r == self.seq().len(),
    {
        self.items.len()
    }

    pub fn is_empty(&self) -> (r: bool)
        requires
            self.wf(),
        ensures
            r == (self@ == Set::<usize>::empty()),
    {
        if self.items.len() > 0 {
            assert(self@.contains(self.seq()[0]));
        } else {
            assert(self@ =~= Set::<usize>::empty());
        }
        self.items.len() == 0
    }

    /// The element at position `i` of the ascending order.
    pub fn get(&self, i: usize) -> (r: usize)
        requires
            i < self.seq().len(),
        ensures
            r == self.seq()[i as int],
            self@.contains(r),
    {
        assert(self.seq().to_set().contains(self.seq()[i as int]));
        self.items[i]
    }

    /// The elements in ascending order.
    pub fn iter(&self) -> (r: &[usize])
        ensures
            r@ == self.seq(),
    {
        self.items.as_slice()
    }

    /// The elements in ascending order, consuming the set.
    pub fn into_iter(self) -> (r: Vec<usize>)
        ensures
            r@ == self.seq(),
    {
        self.items
    }

    pub fn contains(&self, x: usize) -> (r: bool)
        requires
            self.wf(),
        ensures
            r == self@.contains(x),
    {
        let (_, present) = find(&self.items, x);
        present
    }

    /// Inserts `x`; does nothing when it is present.
    pub fn add(&mut self, x: usize)
        requires
            old(self).wf(),
        ensures
            final(self).wf(),
            final(self)@ == old(self)@.insert(x),
            !old(self)@.contains(x) ==> final(self).seq().len() == old(self).seq().len() + 1,
    {
        let (idx, present) = find(&self.items, x);
        if !present {
            let ghost s = self.items@;
            self.items.insert(idx, x);
            proof {
                let t = self.items@;
                assert(t == s.insert(idx as int, x));
                assert forall|i: int, j: int| 0 <= i < j < t.len() implies t[i] < t[j] by {
                    if j < idx {
                    } else if j == idx {
                    } else if i < idx {
                    } else if i == idx {
                        assert(s[j - 1] >= x);
                        assert(s[j - 1] != x);
                    } else {
                        assert(s[i - 1] < s[j - 1]);
                    }
                }
                assert forall|y: usize| t.to_set().contains(y) == s.to_set().insert(x).contains(y) by {
                    if s.contains(y) {
                        let k = choose|k: int| 0 <= k < s.len() && s[k] == y;
                        if k < idx {
                            assert(t[k] == y);
                        } else {
                            assert(t[k + 1] == y);
                        }
                    }
                    if t.contains(y) {
                        let k = choose|k: int| 0 <= k < t.len() && t[k] == y;
                        if k < idx {
                            assert(s[k] == y);
                        } else if k > idx {
                            assert(s[k - 1] == y);
                        }
                    }
                    assert(t[idx as int] == x);
                }
                assert(t.to_set() =~= s.to_set().insert(x));
            }
        } else {
            assert(self@ =~= self@.insert(x));
        }
    }

    /// Adds every element of `other`.
    pub fn addall(&mut self, other: SortedSet)
        requires
            old(self).wf(),
        ensures
            final(self).wf(),
            final(self)@ == old(self)@.union(other@),
    {
        let v = other.into_iter();
        let mut i: usize = 0;
        while i < v.len()
            invariant
                self.wf(),
                v@ == other.seq(),
                i <= v@.len(),
                self@ == old(self)@.union(v@.subrange(0, i as int).to_set()),
            decreases v@.len() - i,
        {
            self.add(v[i]);
            i = i + 1;
            assert(v@.subrange(0, i as int).to_set() =~= v@.subrange(0, i - 1).to_set().insert(
                v@[i - 1],
            )) by {
                assert forall|y: usize| #[trigger]
                    v@.subrange(0, i as int).to_set().contains(y) implies v@.subrange(
                    0,
                    i - 1,
                ).to_set().insert(v@[i - 1]).contains(y) by {
                    let k = choose|k: int|
                        0 <= k < i && #[trigger] v@.subrange(0, i as int)[k] == y;
                    if k < i - 1 {
                        assert(v@.subrange(0, i - 1)[k] == y);
                    }
                }
                assert forall|y: usize| #[trigger]
                    v@.subrange(0, i - 1).to_set().contains(y) implies v@.subrange(
                    0,
                    i as int,
                ).to_set().contains(y) by {
                    let k = choose|k: int|
                        0 <= k < i - 1 && #[trigger] v@.subrange(0, i - 1)[k] == y;
                    assert(v@.subrange(0, i as int)[k] == y);
                }
                assert(v@.subrange(0, i as int)[i - 1] == v@[i - 1]);
            }
            assert(self@ =~= old(self)@.union(v@.subrange(0, i as int).to_set()));
        }
        assert(v@.subrange(0, v@.len() as int) == v@);
    }

    /// The elements of this set that are not in `other`.
    pub fn minus(&self, other: &SortedSet) -> (r: SortedSet)
        requires
            self.wf(),
            other.wf(),
        ensures
            r.wf(),
            r@ == self@.difference(other@),
    {
        let mut out: Vec<usize> = Vec::new();
        let mut i: usize = 0;
        while i < self.items.len()
            invariant
                self.wf(),
                other.wf(),
                i <= self.seq().len(),
                strictly_sorted(out@),
                out@.len() > 0 ==> i > 0 && out@[out@.len() - 1] <= self.seq()[i - 1],
                out@.to_set() == self.seq().subrange(0, i as int).to_set().difference(other@),
            decreases self.seq().len() - i,
        {
            let x = self.items[i];
            let ghost before = out@;
            if !other.contains(x) {
                out.push(x);
                proof {
                    assert forall|a: int, b: int| 0 <= a < b < out@.len() implies out@[a] < out@[b] by {
                        if b == out@.len() - 1 && a < before.len() - 1 {
                            assert(before[a] < before[before.len() - 1]);
                        }
                    }
                }
            }
            proof {
                let pre = self.seq().subrange(0, i as int);
                let post = self.seq().subrange(0, i + 1);
                assert forall|y: usize| #[trigger] post.to_set().contains(y) == (pre.to_set().contains(y) || y == x) by {
                    if post.to_set().contains(y) {
                        let k = choose|k: int| 0 <= k < post.len() && post[k] == y;
                        if k < i {
                            assert(pre[k] == y);
                        }
                    }
                    if pre.to_set().contains(y) {
                        let k = choose|k: int| 0 <= k < pre.len() && pre[k] == y;
                        assert(post[k] == y);
                    }
                    assert(post[i as int] == x);
                }
                assert forall|y: usize| #[trigger] out@.to_set().contains(y) == post.to_set().difference(other@).contains(y) by {
                    if out@.len() > before.len() {
                        assert(out@ == before.push(x));
                        if before.to_set().contains(y) {
                            let k = choose|k: int| 0 <= k < before.len() && before[k] == y;
                            assert(out@[k] == y);
                        }
                        if out@.to_set().contains(y) && y != x {
                            let k = choose|k: int| 0 <= k < out@.len() && out@[k] == y;
                            assert(before[k] == y);
                        }
                        assert(out@[out@.len() - 1] == x);
                    }
                }
                assert(out@.to_set() =~= post.to_set().difference(other@));
            }
            i = i + 1;
        }
        assert(self.seq().subrange(0, self.seq().len() as int) == self.seq());
        SortedSet { items: out }
    }

    /// A set with the same elements.
    pub fn duplicate(&self) -> (r: SortedSet)
        ensures
            r.seq() == self.seq(),
            r@ == self@,
    {
        let items = self.items.clone();
        assert(items@ =~= self.items@);
        SortedSet { items }
    }
}

impl PartialEq for SortedSet {
    /// Element-wise equality from the first position.
    fn eq(&self, other: &SortedSet) -> (r: bool) {
        if self.items.len() != other.items.len() {
            return false;
        }
        let mut i: usize = 0;
        while i < self.items.len()
            invariant
                self.items@.len() == other.items@.len(),
                i <= self.items@.len(),
                forall|k: int| 0 <= k < i ==> self.items@[k] == other.items@[k],
            decreases self.items@.len() - i,
        {
            if self.items[i] != other.items[i] {
                return false;
            }
            i = i + 1;
        }
        assert(self.items@ =~= other.items@);
        true
    }
}

impl vstd::std_specs::cmp::PartialEqSpecImpl for SortedSet {
    open spec fn obeys_eq_spec() -> bool {
        true
    }

    open spec fn eq_spec(&self, other: &SortedSet) -> bool {
        self.seq() == other.seq()
    }
}

/// Element-wise order of two sequences of one length, from position `i`.
pub open spec fn elementwise_order(a: Seq<usize>, b: Seq<usize>, i: int) -> core::cmp::Ordering
    decreases a.len() - i,
{
    if i < 0 || i >= a.len() || i >= b.len() {
        core::cmp::Ordering::Equal
    } else if a[i] < b[i] {
        core::cmp::Ordering::Less
    } else if a[i] > b[i] {
        core::cmp::Ordering::Greater
    } else {
        elementwise_order(a, b, i + 1)
    }
}

/// The order of sets: by size first, then element-wise in ascending order.
pub open spec fn set_order(a: Seq<usize>, b: Seq<usize>) -> core::cmp::Ordering {
    if a.len() < b.len() {
        core::cmp::Ordering::Less
    } else if a.len() > b.len() {
        core::cmp::Ordering::Greater
    } else {
        elementwise_order(a, b, 0)
    }
}

impl PartialOrd for SortedSet {
    /// Orders by size first, then element-wise in ascending order.
    fn partial_cmp(&self, other: &SortedSet) -> (r: Option<core::cmp::Ordering>) {
        if self.items.len() < other.items.len() {
            return Some(core::cmp::Ordering::Less);
        }
        if self.items.len() > other.items.len() {
            return Some(core::cmp::Ordering::Greater);
        }
        let mut i: usize = 0;
        while i < self.items.len()
            invariant
                self.items@.len() == other.items@.len(),
                i <= self.items@.len(),
                elementwise_order(self.items@, other.items@, 0) == elementwise_order(self.items@, other.items@, i as int),
            decreases self.items@.len() - i,
        {
            if self.items[i] < other.items[i] {
                return Some(core::cmp::Ordering::Less);
            }
            if self.items[i] > other.items[i] {
                return Some(core::cmp::Ordering::Greater);
            }
            i = i + 1;
        }
        Some(core::cmp::Ordering::Equal)
    }
}

impl vstd::std_specs::cmp::PartialOrdSpecImpl for SortedSet {
    open spec fn obeys_partial_cmp_spec() -> bool {
        true
    }

    open spec fn partial_cmp_spec(&self, other: &SortedSet) -> Option<core::cmp::Ordering> {
        Some(set_order(self.seq(), other.seq()))
    }
}

} // verus!
