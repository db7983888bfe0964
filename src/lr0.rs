//! LR(0) item sets: closure, goto and the moves of an item set.
use vstd::prelude::*;
use crate::sorted_set::SortedSet;
use crate::grammar::{Grammar, Item};

verus! {

impl Grammar {
    /// The symbol right after the dot of item `i`, if the item is not complete.
    pub open spec fn next_symbol(&self, i: int) -> Option<usize> {
        let it = self.items@[i];
        if it.dot < self.rhs(it.production as int).len() {
            Some(self.rhs(it.production as int)[it.dot as int])
        } else {
            None
        }
    }

    /// Every element is an item id of this grammar.
    pub open spec fn valid_items(&self, s: Set<usize>) -> bool {
        forall|i: usize| s.contains(i) ==> i < self.num_items()
    }

    /// `s` holds `B -> .γ` for every production of `B` wherever it holds an item
    /// with `B` after the dot.
    pub open spec fn closed(&self, s: Set<usize>) -> bool {
        forall|i: usize, p: int|
            #![trigger s.contains(i), self.lhs(p)]
            s.contains(i) && i < self.num_items() && 0 <= p < self.productions@.len()
                && self.next_symbol(i as int) == Some(self.lhs(p)) ==> s.contains(
                self.item_id(p, 0) as usize,
            )
    }

    /// The least closed set that contains `s`.
    pub open spec fn closure_of(&self, s: Set<usize>) -> Set<usize> {
        Set::new(
            |i: usize| forall|c: Set<usize>| s.subset_of(c) && #[trigger] self.closed(c) ==> c.contains(i),
        )
    }

    /// The closure of `items`: the smallest item set that contains them and, with every
    /// item `A -> α.Bβ`, every `B -> .γ`.
    pub fn closure(&self, items: &SortedSet) -> (r: SortedSet)
        requires
            self.shape_wf(),
            items.wf(),
            self.valid_items(items@),
        ensures
            r.wf(),
            self.valid_items(r@),
            r@ == self.closure_of(items@),
    {
        let ghost n = self.num_items();
        let mut ret = SortedSet::new();
        let mut stack: Vec<usize> = Vec::new();
        let mut k: usize = 0;
        while k < items.len()
            invariant
                items.wf(),
                self.valid_items(items@),
                k <= items.seq().len(),
                ret.wf(),
                ret@ == Set::<usize>::empty(),
                stack@ == items.seq().subrange(0, k as int),
            decreases items.seq().len() - k,
        {
            stack.push(items.get(k));
            k = k + 1;
            assert(stack@ =~= items.seq().subrange(0, k as int));
        }
        assert(stack@ == items.seq());
        assert forall|j: int| 0 <= j < stack@.len() implies stack@[j] < n by {
            assert(items@.contains(items.seq()[j]));
        }
        while stack.len() > 0
            invariant
                self.shape_wf(),
                n == self.num_items(),
                items.wf(),
                self.valid_items(items@),
                ret.wf(),
                self.valid_items(ret@),
                forall|j: int| 0 <= j < stack@.len() ==> stack@[j] < n,
                forall|i: usize| items@.contains(i) ==> ret@.contains(i) || stack@.contains(i),
                forall|i: usize, p: int|
                    #![trigger ret@.contains(i), self.lhs(p)]
                    ret@.contains(i) && 0 <= p < self.productions@.len() && self.next_symbol(
                        i as int,
                    ) == Some(self.lhs(p)) ==> ret@.contains(self.item_id(p, 0) as usize)
                        || stack@.contains(self.item_id(p, 0) as usize),
                forall|c: Set<usize>|
                    items@.subset_of(c) && #[trigger] self.closed(c) ==> ret@.subset_of(c) && (
                    forall|j: int| 0 <= j < stack@.len() ==> c.contains(stack@[j])),
            decreases n - ret.seq().len(), stack@.len(),
        {
            proof {
                ret.lemma_len_bound(n);
            }
            let ghost ret0 = ret@;
            let ghost len0 = ret.seq().len();
            let ghost st0 = stack@;
            let x = stack.pop().unwrap();
            let ghost popped = stack@;
            assert(st0 == popped.push(x));
            if !ret.contains(x) {
                ret.add(x);
                assert(ret.seq().len() == len0 + 1);
                let it: Item = self.items[x];
                let prod = &self.productions[it.production];
                if it.dot < prod.symbols.len() {
                    let sym = prod.symbols[it.dot];
                    if !self.terminal[sym] {
                        let mut p: usize = 0;
                        while p < self.productions.len()
                            invariant
                                self.shape_wf(),
                                n == self.num_items(),
                                items.wf(),
                                ret.wf(),
                                self.valid_items(ret@),
                                ret@.contains(x),
                                x < n,
                                self.next_symbol(x as int) == Some(sym),
                                p <= self.productions@.len(),
                                forall|j: int| 0 <= j < stack@.len() ==> stack@[j] < n,
                                forall|i: usize| popped.contains(i) ==> stack@.contains(i),
                                forall|q: int|
                                    0 <= q < p && self.lhs(q) == sym ==> ret@.contains(
                                        self.item_id(q, 0) as usize,
                                    ) || stack@.contains(self.item_id(q, 0) as usize),
                                forall|c: Set<usize>|
                                    items@.subset_of(c) && #[trigger] self.closed(c)
                                        ==> ret@.subset_of(c) && (forall|j: int|
                                        0 <= j < stack@.len() ==> c.contains(stack@[j])),
                            decreases self.productions@.len() - p,
                        {
                            if self.productions[p].nt == sym {
                                let j = self.item_base[p];
                                assert(self.item_id(p as int, 0) == j);
                                if !ret.contains(j) {
                                    let ghost before = stack@;
                                    stack.push(j);
                                    proof {
                                        assert forall|i: usize| popped.contains(i) implies stack@.contains(i) by {
                                            let t = choose|t: int| 0 <= t < before.len() && before[t] == i;
                                            assert(stack@[t] == i);
                                        }
                                        assert(stack@[stack@.len() - 1] == j);
                                        assert forall|q: int|
                                            0 <= q < p + 1 && self.lhs(q) == sym implies ret@.contains(
                                                self.item_id(q, 0) as usize,
                                            ) || stack@.contains(self.item_id(q, 0) as usize) by {
                                            if q < p && !ret@.contains(self.item_id(q, 0) as usize) {
                                                let t = choose|t: int| 0 <= t < before.len() && before[t] == self.item_id(q, 0) as usize;
                                                assert(stack@[t] == before[t]);
                                            }
                                        }
                                        assert forall|c: Set<usize>|
                                            items@.subset_of(c) && #[trigger] self.closed(c) implies ret@.subset_of(c) && (forall|t: int|
                                                0 <= t < stack@.len() ==> c.contains(stack@[t])) by {
                                            assert(c.contains(x));
                                            assert(self.lhs(p as int) == sym);
                                            assert(c.contains(self.item_id(p as int, 0) as usize));
                                            assert forall|t: int| 0 <= t < stack@.len() implies c.contains(stack@[t]) by {
                                                if t < before.len() {
                                                    assert(stack@[t] == before[t]);
                                                }
                                            }
                                        }
                                    }
                                }
                            }
                            p = p + 1;
                        }
                    }
                }
                assert(forall|i: usize| popped.contains(i) ==> stack@.contains(i));
                proof {
                    assert forall|p: int|
                        0 <= p < self.productions@.len() && self.next_symbol(x as int) == Some(
                            #[trigger] self.lhs(p),
                        ) implies ret@.contains(self.item_id(p, 0) as usize) || stack@.contains(
                        self.item_id(p, 0) as usize,
                    ) by {
                        if p >= 1 {
                            assert(self.is_nonterm(self.lhs(p)));
                        }
                    }
                    assert forall|i: usize, p: int|
                        #![trigger ret@.contains(i), self.lhs(p)]
                        ret@.contains(i) && 0 <= p < self.productions@.len() && self.next_symbol(
                            i as int,
                        ) == Some(self.lhs(p)) implies ret@.contains(self.item_id(p, 0) as usize)
                            || stack@.contains(self.item_id(p, 0) as usize) by {
                        if i == x {
                            assert(self.next_symbol(x as int) == Some(self.lhs(p)));
                        } else {
                            assert(ret0.contains(i));
                            let y = self.item_id(p, 0) as usize;
                            if !ret0.contains(y) && y != x {
                                assert(st0.contains(y));
                                let t = choose|t: int| 0 <= t < st0.len() && st0[t] == y;
                                assert(popped[t] == y);
                                assert(popped.contains(y));
                            }
                        }
                    }
                }
            }
            assert(forall|i: usize| popped.contains(i) ==> stack@.contains(i));
            proof {
                ret.lemma_len_bound(n);
                assert forall|i: usize| items@.contains(i) implies ret@.contains(i) || stack@.contains(i) by {
                    if ret0.contains(i) {
                        assert(ret@.contains(i));
                    } else if i != x {
                        assert(st0.contains(i));
                        let t = choose|t: int| 0 <= t < st0.len() && st0[t] == i;
                        assert(popped[t] == i);
                        assert(popped.contains(i));
                    }
                }
            }
        }
        proof {
            assert(self.closed(ret@));
            assert(items@.subset_of(ret@));
            assert(ret@ =~= self.closure_of(items@));
        }
        ret
    }
}


impl Grammar {
    /// The items of `s` with `x` after the dot, with the dot moved past `x`.
    pub open spec fn kernel(&self, s: Set<usize>, x: usize) -> Set<usize> {
        Set::new(
            |j: usize|
                j >= 1 && s.contains((j - 1) as usize) && j - 1 < self.num_items()
                    && self.next_symbol(j - 1) == Some(x),
        )
    }

    /// goto(s, x): the closure of the kernel of `s` on `x`.
    pub open spec fn goto_of(&self, s: Set<usize>, x: usize) -> Set<usize> {
        self.closure_of(self.kernel(s, x))
    }

    /// Some item of `s` has `x` right after its dot.
    pub open spec fn has_move(&self, s: Set<usize>, x: usize) -> bool {
        exists|i: usize| s.contains(i) && i < self.num_items() && #[trigger] self.next_symbol(i as int) == Some(x)
    }

    /// Moving the dot of an incomplete item past its next symbol gives the next item id.
    pub proof fn lemma_advance(&self, i: int)
        requires
            self.shape_wf(),
            0 <= i < self.num_items(),
            self.next_symbol(i) is Some,
        ensures
            i + 1 < self.num_items(),
            self.items@[i + 1].production == self.items@[i].production,
            self.items@[i + 1].dot == self.items@[i].dot + 1,
    {
        let it = self.items@[i];
        assert(self.item_id(it.production as int, it.dot as int) == i);
        assert(self.item_id(it.production as int, it.dot + 1) == i + 1);
    }

    /// The closure of any set is closed and contains the set.
    pub proof fn lemma_closure_closed(&self, s: Set<usize>)
        ensures
            self.closed(self.closure_of(s)),
            s.subset_of(self.closure_of(s)),
    {
        let cl = self.closure_of(s);
        assert forall|i: usize, p: int|
            #![trigger cl.contains(i), self.lhs(p)]
            cl.contains(i) && i < self.num_items() && 0 <= p < self.productions@.len()
                && self.next_symbol(i as int) == Some(self.lhs(p)) implies cl.contains(
            self.item_id(p, 0) as usize,
        ) by {
            assert forall|c: Set<usize>| s.subset_of(c) && #[trigger] self.closed(c) implies c.contains(
                self.item_id(p, 0) as usize,
            ) by {
                assert(c.contains(i));
            }
        }
    }

    /// A closed set that contains `s` contains its closure.
    pub proof fn lemma_closure_least(&self, s: Set<usize>, c: Set<usize>)
        requires
            s.subset_of(c),
            self.closed(c),
        ensures
            self.closure_of(s).subset_of(c),
    {
    }

    /// Closing an item set twice gives the same set as closing it once.
    pub proof fn lemma_closure_idempotent(&self, s: Set<usize>)
        ensures
            self.closure_of(self.closure_of(s)) == self.closure_of(s),
    {
        let cl = self.closure_of(s);
        self.lemma_closure_closed(s);
        self.lemma_closure_least(cl, cl);
        assert forall|i: usize| cl.contains(i) implies self.closure_of(cl).contains(i) by {
            assert forall|c: Set<usize>| cl.subset_of(c) && #[trigger] self.closed(c) implies c.contains(i) by {
            }
        }
        assert(self.closure_of(cl) =~= cl);
    }

    /// The closure of the empty set is empty.
    pub proof fn lemma_closure_empty(&self)
        ensures
            self.closure_of(Set::<usize>::empty()) == Set::<usize>::empty(),
    {
        self.lemma_closure_least(Set::<usize>::empty(), Set::<usize>::empty());
        assert(self.closure_of(Set::<usize>::empty()) =~= Set::<usize>::empty());
    }

    /// The items of `items` with `x` after the dot, with the dot moved past `x`.
    pub fn kernel_on(&self, items: &SortedSet, x: usize) -> (r: SortedSet)
        requires
            self.shape_wf(),
            items.wf(),
            self.valid_items(items@),
        ensures
            r.wf(),
            self.valid_items(r@),
            r@ == self.kernel(items@, x),
    {
        let mut r = SortedSet::new();
        let mut k: usize = 0;
        while k < items.len()
            invariant
                self.shape_wf(),
                items.wf(),
                self.valid_items(items@),
                k <= items.seq().len(),
                r.wf(),
                forall|j: usize|
                    r@.contains(j) ==> j >= 1 && items@.contains((j - 1) as usize) && j - 1
                        < self.num_items() && self.next_symbol(j - 1) == Some(x) && j < self.num_items(),
                forall|t: int|
                    0 <= t < k && self.next_symbol(items.seq()[t] as int) == Some(x) ==> r@.contains(
                        (items.seq()[t] + 1) as usize,
                    ),
            decreases items.seq().len() - k,
        {
            let i = items.get(k);
            let it = self.items[i];
            let prod = &self.productions[it.production];
            if it.dot < prod.symbols.len() && prod.symbols[it.dot] == x {
                proof {
                    self.lemma_advance(i as int);
                }
                r.add(i + 1);
            }
            k = k + 1;
        }
        proof {
            assert forall|j: usize| self.kernel(items@, x).contains(j) implies r@.contains(j) by {
                let t = choose|t: int| 0 <= t < items.seq().len() && items.seq()[t] == (j - 1) as usize;
            }
            assert(r@ =~= self.kernel(items@, x));
        }
        r
    }

    /// goto(items, x): the closure of the items of `items` with the dot moved past `x`.
    pub fn goto(&self, items: &SortedSet, x: usize) -> (r: SortedSet)
        requires
            self.shape_wf(),
            items.wf(),
            self.valid_items(items@),
        ensures
            r.wf(),
            self.valid_items(r@),
            r@ == self.goto_of(items@, x),
    {
        let k = self.kernel_on(items, x);
        self.closure(&k)
    }

    /// For each symbol right of some dot in `items`, in increasing order of symbol, that
    /// symbol and goto(items, symbol).
    pub fn moves(&self, items: &SortedSet) -> (r: Vec<(usize, SortedSet)>)
        requires
            self.shape_wf(),
            items.wf(),
            self.valid_items(items@),
        ensures
            forall|a: int, b: int| 0 <= a < b < r@.len() ==> r@[a].0 < r@[b].0,
            forall|a: int|
                0 <= a < r@.len() ==> {
                    &&& (#[trigger] r@[a]).1.wf()
                    &&& self.valid_items(r@[a].1@)
                    &&& r@[a].1@ == self.goto_of(items@, r@[a].0)
                    &&& self.has_move(items@, r@[a].0)
                },
            forall|x: usize|
                self.has_move(items@, x) ==> exists|a: int| 0 <= a < r@.len() && (#[trigger] r@[a]).0 == x,
    {
        let mut r: Vec<(usize, SortedSet)> = Vec::new();
        let mut x: usize = 0;
        while x < self.names.len()
            invariant
                self.shape_wf(),
                items.wf(),
                self.valid_items(items@),
                x <= self.num_symbols(),
                forall|a: int, b: int| 0 <= a < b < r@.len() ==> r@[a].0 < r@[b].0,
                forall|a: int| 0 <= a < r@.len() ==> r@[a].0 < x,
                forall|a: int|
                    0 <= a < r@.len() ==> {
                        &&& (#[trigger] r@[a]).1.wf()
                        &&& self.valid_items(r@[a].1@)
                        &&& r@[a].1@ == self.goto_of(items@, r@[a].0)
                        &&& self.has_move(items@, r@[a].0)
                    },
                forall|y: usize|
                    y < x && self.has_move(items@, y) ==> exists|a: int| 0 <= a < r@.len() && (#[trigger] r@[a]).0 == y,
            decreases self.num_symbols() - x,
        {
            let k = self.kernel_on(items, x);
            let ghost before = r@;
            if k.len() > 0 {
                let j0 = k.get(0);
                assert(self.next_symbol(j0 - 1) == Some(x));
                let g = self.closure(&k);
                r.push((x, g));
                proof {
                    assert(r@[r@.len() - 1].0 == x);
                    assert forall|y: usize|
                        y < x + 1 && self.has_move(items@, y) implies exists|a: int| 0 <= a < r@.len() && (#[trigger] r@[a]).0 == y by {
                        if y < x {
                            let a = choose|a: int| 0 <= a < before.len() && (#[trigger] before[a]).0 == y;
                            assert(r@[a] == before[a]);
                        }
                    }
                }
            } else {
                proof {
                    if self.has_move(items@, x) {
                        let i = choose|i: usize| items@.contains(i) && i < self.num_items() && #[trigger] self.next_symbol(i as int) == Some(x);
                        self.lemma_advance(i as int);
                        assert(self.kernel(items@, x).contains((i + 1) as usize));
                        assert(k.seq().to_set().contains((i + 1) as usize));
                    }
                }
            }
            x = x + 1;
        }
        proof {
            assert forall|y: usize| self.has_move(items@, y) implies exists|a: int| 0 <= a < r@.len() && (#[trigger] r@[a]).0 == y by {
                let i = choose|i: usize| items@.contains(i) && i < self.num_items() && #[trigger] self.next_symbol(i as int) == Some(y);
                let it = self.items@[i as int];
                assert(self.rhs(it.production as int)[it.dot as int] < self.num_symbols());
            }
        }
        r
    }
}

} // verus!
