//! FIRST and FOLLOW sets, each computed as the least solution of its rules by iteration
//! to a fixed point.
use vstd::prelude::*;
use crate::sorted_set::SortedSet;
use crate::grammar::{Grammar, EPSILON, END, ROOT};
use crate::automaton::views;

verus! {

/// How much a table of sets of symbols below `n` can still grow: the sum over its
/// entries of `n` less the entry's size.
pub open spec fn room(v: Seq<Set<usize>>, n: int) -> int
    decreases v.len(),
{
    if v.len() == 0 {
        0
    } else {
        room(v.drop_last(), n) + (n - v.last().len())
    }
}

pub proof fn lemma_room_update(v: Seq<Set<usize>>, n: int, a: int, t: Set<usize>)
    requires
        0 <= a < v.len(),
    ensures
        room(v.update(a, t), n) == room(v, n) - (t.len() - v[a].len()),
    decreases v.len(),
{
    let w = v.update(a, t);
    if a == v.len() - 1 {
        assert(w.drop_last() =~= v.drop_last());
    } else {
        assert(w.drop_last() =~= v.drop_last().update(a, t));
        lemma_room_update(v.drop_last(), n, a, t);
    }
}

pub proof fn lemma_room_nonneg(v: Seq<Set<usize>>, n: int)
    requires
        forall|k: int| 0 <= k < v.len() ==> (#[trigger] v[k]).len() <= n,
    ensures
        room(v, n) >= 0,
    decreases v.len(),
{
    if v.len() > 0 {
        lemma_room_nonneg(v.drop_last(), n);
    }
}

/// A table of well-formed sets of symbols below `n`.
pub open spec fn table_wf(t: Seq<SortedSet>, n: int) -> bool {
    forall|k: int| 0 <= k < t.len() ==> (#[trigger] t[k]).wf() && t[k].bounded_by(n)
}

/// Adds `add` to entry `a` of the table; tells whether the entry grew.
fn grow(t: &mut Vec<SortedSet>, a: usize, add: SortedSet, n: Ghost<int>) -> (changed: bool)
    requires
        a < old(t)@.len(),
        0 <= n@,
        table_wf(old(t)@, n@),
        add.wf(),
        add.bounded_by(n@),
    ensures
        table_wf(final(t)@, n@),
        views(final(t)@) == views(old(t)@).update(a as int, old(t)@[a as int]@.union(add@)),
        changed == !add@.subset_of(old(t)@[a as int]@),
        changed ==> room(views(final(t)@), n@) < room(views(old(t)@), n@),
        !changed ==> views(final(t)@) == views(old(t)@),
{
    let ghost t0 = t@;
    let extra = add.minus(&t[a]);
    if extra.len() == 0 {
        proof {
            assert(extra@ =~= Set::<usize>::empty());
            assert forall|x: usize| add@.contains(x) implies t0[a as int]@.contains(x) by {
                if !t0[a as int]@.contains(x) {
                    assert(extra@.contains(x));
                }
            }
            assert(t0[a as int]@.union(add@) =~= t0[a as int]@);
            assert(views(t0).update(a as int, t0[a as int]@.union(add@)) =~= views(t0));
        }
        false
    } else {
        let e = extra.get(0);
        t[a as usize].addall(extra);
        proof {
            assert(t@[a as int]@ =~= t0[a as int]@.union(add@));
            assert forall|k: int| 0 <= k < t@.len() implies (#[trigger] t@[k]).wf() && t@[k].bounded_by(n@) by {
                if k != a {
                    assert(t@[k] == t0[k]);
                }
            }
            assert(views(t@) =~= views(t0).update(a as int, t0[a as int]@.union(add@)));
            t@[a as int].lemma_len_card();
            t0[a as int].lemma_len_card();
            t0[a as int]@.lemma_subset_not_in_lt(t@[a as int]@, e);
            lemma_room_update(views(t0), n@, a as int, t@[a as int]@);
        }
        true
    }
}

impl Grammar {
    /// FIRST of one symbol, given the FIRST sets `f` of the nonterminals.
    pub open spec fn first_sym(&self, f: Seq<Set<usize>>, x: usize) -> Set<usize> {
        if x == EPSILON {
            set![EPSILON]
        } else if self.is_term(x) {
            set![x]
        } else {
            f[x as int]
        }
    }

    /// FIRST of the suffix of `s` from position `i`, given the FIRST sets `f`.
    pub open spec fn first_from(&self, f: Seq<Set<usize>>, s: Seq<usize>, i: int) -> Set<usize>
        decreases s.len() - i,
    {
        if i < 0 || i >= s.len() {
            set![EPSILON]
        } else {
            let fx = self.first_sym(f, s[i]);
            if fx.contains(EPSILON) {
                fx.remove(EPSILON).union(self.first_from(f, s, i + 1))
            } else {
                fx
            }
        }
    }

    /// `f` satisfies the FIRST rules: FIRST of each right-hand side lies in FIRST of its
    /// left-hand side.
    pub open spec fn first_closed(&self, f: Seq<Set<usize>>) -> bool {
        &&& f.len() == self.num_symbols()
        &&& forall|p: int|
            0 <= p < self.productions@.len() ==> #[trigger] self.first_from(f, self.rhs(p), 0).subset_of(
                f[self.lhs(p) as int],
            )
    }

    /// `f` is the least table that satisfies the FIRST rules.
    pub open spec fn first_least(&self, f: Seq<Set<usize>>) -> bool {
        &&& self.first_closed(f)
        &&& forall|g: Seq<Set<usize>>|
            #[trigger] self.first_closed(g) ==> forall|a: int|
                0 <= a < self.num_symbols() ==> (#[trigger] f[a]).subset_of(g[a])
    }

    /// FIRST of a sequence grows with the table it is computed from.
    pub proof fn lemma_first_from_mono(&self, f: Seq<Set<usize>>, g: Seq<Set<usize>>, s: Seq<usize>, i: int)
        requires
            forall|k: int| 0 <= k < s.len() ==> s[k] < self.num_symbols(),
            f.len() == self.num_symbols(),
            g.len() == self.num_symbols(),
            forall|a: int| 0 <= a < self.num_symbols() ==> (#[trigger] f[a]).subset_of(g[a]),
        ensures
            self.first_from(f, s, i).subset_of(self.first_from(g, s, i)),
        decreases s.len() - i,
    {
        if 0 <= i < s.len() {
            self.lemma_first_from_mono(f, g, s, i + 1);
            assert(self.first_sym(f, s[i]).subset_of(self.first_sym(g, s[i])));
        }
    }

    /// FIRST of a sequence holds ε or symbols of the grammar.
    pub proof fn lemma_first_from_bounded(&self, f: Seq<Set<usize>>, s: Seq<usize>, i: int)
        requires
            forall|k: int| 0 <= k < s.len() ==> s[k] < self.num_symbols(),
            self.num_symbols() >= 1,
            f.len() == self.num_symbols(),
            forall|a: int, x: usize| 0 <= a < f.len() && #[trigger] f[a].contains(x) ==> x < self.num_symbols(),
        ensures
            forall|x: usize| #[trigger] self.first_from(f, s, i).contains(x) ==> x < self.num_symbols(),
        decreases s.len() - i,
    {
        if 0 <= i < s.len() {
            self.lemma_first_from_bounded(f, s, i + 1);
            assert forall|x: usize| #[trigger] self.first_sym(f, s[i]).contains(x) implies x < self.num_symbols() by {
                if s[i] != EPSILON && !self.is_term(s[i]) {
                    assert(f[s[i] as int].contains(x));
                }
            }
            let fx = self.first_sym(f, s[i]);
            let rest = self.first_from(f, s, i + 1);
            assert forall|x: usize| #[trigger] self.first_from(f, s, i).contains(x) implies x < self.num_symbols() by {
                if fx.contains(EPSILON) {
                    assert(self.first_from(f, s, i) == fx.remove(EPSILON).union(rest));
                    if !fx.contains(x) {
                        assert(rest.contains(x));
                    }
                } else {
                    assert(self.first_from(f, s, i) == fx);
                }
            }
        } else {
            assert forall|x: usize| #[trigger] self.first_from(f, s, i).contains(x) implies x < self.num_symbols() by {
                assert(self.first_from(f, s, i) == set![EPSILON]);
            }
        }
    }

    /// FIRST of symbol `x`, given the FIRST sets in `f`.
    pub(crate) fn first_sym_exec(&self, f: &Vec<SortedSet>, x: usize) -> (r: SortedSet)
        requires
            self.symbols_wf(),
            f@.len() == self.num_symbols(),
            table_wf(f@, self.num_symbols()),
            x < self.num_symbols(),
        ensures
            r.wf(),
            r.bounded_by(self.num_symbols()),
            r@ == self.first_sym(views(f@), x),
    {
        if x == EPSILON {
            SortedSet::singleton(EPSILON)
        } else if self.terminal[x] {
            SortedSet::singleton(x)
        } else {
            f[x].duplicate()
        }
    }

    /// FIRST of the suffix of `s` from position `from`, given the FIRST sets in `f`.
    pub(crate) fn first_of(&self, f: &Vec<SortedSet>, s: &Vec<usize>, from: usize) -> (r: SortedSet)
        requires
            self.symbols_wf(),
            f@.len() == self.num_symbols(),
            table_wf(f@, self.num_symbols()),
            forall|k: int| 0 <= k < s@.len() ==> s@[k] < self.num_symbols(),
        ensures
            r.wf(),
            r.bounded_by(self.num_symbols()),
            r@ == self.first_from(views(f@), s@, from as int),
    {
        let ghost fv = views(f@);
        if from >= s.len() {
            let r = SortedSet::singleton(EPSILON);
            return r;
        }
        let mut acc = SortedSet::new();
        let mut i: usize = from;
        while i < s.len()
            invariant
                self.symbols_wf(),
                f@.len() == self.num_symbols(),
                table_wf(f@, self.num_symbols()),
                fv == views(f@),
                forall|k: int| 0 <= k < s@.len() ==> s@[k] < self.num_symbols(),
                from <= i <= s@.len(),
                acc.wf(),
                acc.bounded_by(self.num_symbols()),
                !acc@.contains(EPSILON),
                self.first_from(fv, s@, from as int) == acc@.union(self.first_from(fv, s@, i as int)),
            decreases s@.len() - i,
        {
            let fx = self.first_sym_exec(f, s[i]);
            let has_eps = fx.contains(EPSILON);
            let rest = fx.minus(&SortedSet::singleton(EPSILON));
            let ghost acc0 = acc@;
            acc.addall(rest);
            if !has_eps {
                proof {
                    assert(fx@.remove(EPSILON) =~= fx@);
                    assert(acc@ =~= acc0.union(self.first_from(fv, s@, i as int)));
                }
                return acc;
            }
            proof {
                assert(fx@.difference(set![EPSILON]) =~= fx@.remove(EPSILON));
                assert(acc@.union(self.first_from(fv, s@, i + 1)) =~= acc0.union(
                    self.first_from(fv, s@, i as int),
                ));
            }
            i = i + 1;
        }
        acc.add(EPSILON);
        assert(acc@ =~= self.first_from(fv, s@, from as int));
        acc
    }
}

impl Grammar {
    /// A table of empty sets, one for each symbol.
    fn empty_table(&self) -> (r: Vec<SortedSet>)
        requires
            self.symbols_wf(),
        ensures
            r@.len() == self.num_symbols(),
            table_wf(r@, self.num_symbols()),
            forall|k: int| 0 <= k < r@.len() ==> (#[trigger] r@[k])@ == Set::<usize>::empty(),
    {
        let mut r: Vec<SortedSet> = Vec::new();
        while r.len() < self.names.len()
            invariant
                r@.len() <= self.num_symbols(),
                forall|k: int| 0 <= k < r@.len() ==> (#[trigger] r@[k]).wf() && r@[k]@ == Set::<usize>::empty(),
            decreases self.num_symbols() - r@.len(),
        {
            r.push(SortedSet::new());
        }
        r
    }

    /// Every entry of a well-formed table has at most `n` elements, so its room is not negative.
    proof fn lemma_table_room(&self, t: Seq<SortedSet>, n: int)
        requires
            0 <= n,
            table_wf(t, n),
        ensures
            room(views(t), n) >= 0,
    {
        assert forall|k: int| 0 <= k < views(t).len() implies (#[trigger] views(t)[k]).len() <= n by {
            t[k].lemma_len_card();
            t[k].lemma_len_bound(n);
        }
        lemma_room_nonneg(views(t), n);
    }

    /// The FIRST sets of all symbols: the least table that satisfies the FIRST rules.
    pub fn compute_first(&self) -> (r: Vec<SortedSet>)
        requires
            self.shape_wf(),
        ensures
            r@.len() == self.num_symbols(),
            table_wf(r@, self.num_symbols()),
            self.first_least(views(r@)),
    {
        let ghost n = self.num_symbols();
        let mut f = self.empty_table();
        proof {
            self.lemma_table_room(f@, n);
        }
        let mut changed = true;
        while changed
            invariant
                self.shape_wf(),
                n == self.num_symbols(),
                f@.len() == n,
                table_wf(f@, n),
                room(views(f@), n) >= 0,
                forall|g: Seq<Set<usize>>|
                    #[trigger] self.first_closed(g) ==> forall|a: int|
                        0 <= a < n ==> (#[trigger] views(f@)[a]).subset_of(g[a]),
                !changed ==> self.first_closed(views(f@)),
            decreases room(views(f@), n) + if changed { 1int } else { 0int },
        {
            changed = false;
            let ghost start = views(f@);
            let mut p: usize = 0;
            while p < self.productions.len()
                invariant
                    self.shape_wf(),
                    n == self.num_symbols(),
                    f@.len() == n,
                    table_wf(f@, n),
                    room(views(f@), n) >= 0,
                    p <= self.productions@.len(),
                    forall|g: Seq<Set<usize>>|
                        #[trigger] self.first_closed(g) ==> forall|a: int|
                            0 <= a < n ==> (#[trigger] views(f@)[a]).subset_of(g[a]),
                    !changed ==> views(f@) == start,
                    changed ==> room(views(f@), n) < room(start, n),
                    !changed ==> forall|q: int|
                        0 <= q < p ==> #[trigger] self.first_from(views(f@), self.rhs(q), 0).subset_of(
                            views(f@)[self.lhs(q) as int],
                        ),
                decreases self.productions@.len() - p,
            {
                let ghost f0 = views(f@);
                proof {
                    self.lemma_rhs_bounded(p as int);
                }
                let add = self.first_of(&f, &self.productions[p].symbols, 0);
                let a = self.productions[p].nt;
                proof {
                    assert(self.lhs(p as int) == a);
                    assert forall|x: usize| add@.contains(x) implies x < n by {
                        assert forall|b: int, y: usize| 0 <= b < f0.len() && #[trigger] f0[b].contains(y) implies y < n by {
                            assert(f@[b].bounded_by(n));
                        }
                        self.lemma_first_from_bounded(f0, self.rhs(p as int), 0);
                    }
                }
                let grew = grow(&mut f, a, add, Ghost(n));
                proof {
                    self.lemma_table_room(f@, n);
                    assert forall|g: Seq<Set<usize>>|
                        #[trigger] self.first_closed(g) implies forall|b: int|
                            0 <= b < n ==> (#[trigger] views(f@)[b]).subset_of(g[b]) by {
                        assert forall|b: int| 0 <= b < n implies (#[trigger] views(f@)[b]).subset_of(g[b]) by {
                            assert(f0[b].subset_of(g[b]));
                            if b == a {
                                self.lemma_first_from_mono(f0, g, self.rhs(p as int), 0);
                                assert(self.first_from(g, self.rhs(p as int), 0).subset_of(g[self.lhs(p as int) as int]));
                            }
                        }
                    }
                }
                if grew {
                    changed = true;
                }
                p = p + 1;
            }
        }
        f
    }
}

impl Grammar {
    /// The FOLLOW rule for position `k` of production `p`, when a nonterminal `B` stands
    /// there: FIRST of what follows `B`, without ε, lies in FOLLOW(B); and when what
    /// follows can derive ε, FOLLOW of the left-hand side lies in FOLLOW(B).
    pub open spec fn follow_rule(&self, f: Seq<Set<usize>>, fo: Seq<Set<usize>>, p: int, k: int) -> bool {
        let b = self.rhs(p)[k];
        let tail = self.first_from(f, self.rhs(p), k + 1);
        self.is_nonterm(b) ==> {
            &&& tail.remove(EPSILON).subset_of(fo[b as int])
            &&& (tail.contains(EPSILON) ==> fo[self.lhs(p) as int].subset_of(fo[b as int]))
        }
    }

    /// `fo` satisfies the FOLLOW rules for the FIRST sets `f`, and the root is followed by
    /// the end of input.
    pub open spec fn follow_closed(&self, f: Seq<Set<usize>>, fo: Seq<Set<usize>>) -> bool {
        &&& fo.len() == self.num_symbols()
        &&& fo[ROOT as int].contains(END)
        &&& forall|p: int, k: int|
            0 <= p < self.productions@.len() && 0 <= k < self.rhs(p).len() ==> #[trigger] self.follow_rule(f, fo, p, k)
    }

    /// `fo` is the least table that satisfies the FOLLOW rules for `f`.
    pub open spec fn follow_least(&self, f: Seq<Set<usize>>, fo: Seq<Set<usize>>) -> bool {
        &&& self.follow_closed(f, fo)
        &&& forall|g: Seq<Set<usize>>|
            #[trigger] self.follow_closed(f, g) ==> forall|a: int|
                0 <= a < self.num_symbols() ==> (#[trigger] fo[a]).subset_of(g[a])
    }

    /// The FOLLOW sets of all symbols, given the FIRST sets `first`: the least table that
    /// satisfies the FOLLOW rules.
    pub fn compute_follow(&self, first: &Vec<SortedSet>) -> (r: Vec<SortedSet>)
        requires
            self.shape_wf(),
            first@.len() == self.num_symbols(),
            table_wf(first@, self.num_symbols()),
        ensures
            r@.len() == self.num_symbols(),
            table_wf(r@, self.num_symbols()),
            self.follow_least(views(first@), views(r@)),
    {
        let ghost n = self.num_symbols();
        let ghost f = views(first@);
        let mut fo = self.empty_table();
        let ghost e0 = views(fo@);
        let _ = grow(&mut fo, ROOT, SortedSet::singleton(END), Ghost(n));
        proof {
            self.lemma_table_room(fo@, n);
            assert forall|g: Seq<Set<usize>>|
                #[trigger] self.follow_closed(f, g) implies forall|a: int|
                    0 <= a < n ==> (#[trigger] views(fo@)[a]).subset_of(g[a]) by {
                assert forall|a: int| 0 <= a < n implies (#[trigger] views(fo@)[a]).subset_of(g[a]) by {
                    assert(e0[a] == Set::<usize>::empty());
                }
            }
        }
        let mut changed = true;
        while changed
            invariant
                self.shape_wf(),
                n == self.num_symbols(),
                f == views(first@),
                first@.len() == n,
                table_wf(first@, n),
                fo@.len() == n,
                table_wf(fo@, n),
                views(fo@)[ROOT as int].contains(END),
                room(views(fo@), n) >= 0,
                forall|g: Seq<Set<usize>>|
                    #[trigger] self.follow_closed(f, g) ==> forall|a: int|
                        0 <= a < n ==> (#[trigger] views(fo@)[a]).subset_of(g[a]),
                !changed ==> self.follow_closed(f, views(fo@)),
            decreases room(views(fo@), n) + if changed { 1int } else { 0int },
        {
            changed = false;
            let ghost start = views(fo@);
            let mut p: usize = 0;
            while p < self.productions.len()
                invariant
                    self.shape_wf(),
                    n == self.num_symbols(),
                    f == views(first@),
                    first@.len() == n,
                    table_wf(first@, n),
                    fo@.len() == n,
                    table_wf(fo@, n),
                    views(fo@)[ROOT as int].contains(END),
                    room(views(fo@), n) >= 0,
                    p <= self.productions@.len(),
                    forall|g: Seq<Set<usize>>|
                        #[trigger] self.follow_closed(f, g) ==> forall|a: int|
                            0 <= a < n ==> (#[trigger] views(fo@)[a]).subset_of(g[a]),
                    !changed ==> views(fo@) == start,
                    changed ==> room(views(fo@), n) < room(start, n),
                    !changed ==> forall|q: int, j: int|
                        0 <= q < p && 0 <= j < self.rhs(q).len() ==> #[trigger] self.follow_rule(f, views(fo@), q, j),
                decreases self.productions@.len() - p,
            {
                proof {
                    self.lemma_rhs_bounded(p as int);
                }
                let syms = &self.productions[p].symbols;
                let a = self.productions[p].nt;
                let mut k: usize = 0;
                while k < syms.len()
                    invariant
                        self.shape_wf(),
                        n == self.num_symbols(),
                        f == views(first@),
                        first@.len() == n,
                        table_wf(first@, n),
                        fo@.len() == n,
                        table_wf(fo@, n),
                        views(fo@)[ROOT as int].contains(END),
                        room(views(fo@), n) >= 0,
                        p < self.productions@.len(),
                        syms@ == self.rhs(p as int),
                        a == self.lhs(p as int),
                        a < n,
                        forall|j: int| 0 <= j < syms@.len() ==> crate::grammar::FIRST_USER <= #[trigger] syms@[j] < n,
                        k <= syms@.len(),
                        forall|g: Seq<Set<usize>>|
                            #[trigger] self.follow_closed(f, g) ==> forall|b: int|
                                0 <= b < n ==> (#[trigger] views(fo@)[b]).subset_of(g[b]),
                        !changed ==> views(fo@) == start,
                        changed ==> room(views(fo@), n) < room(start, n),
                        !changed ==> forall|q: int, j: int|
                            0 <= q < p && 0 <= j < self.rhs(q).len() ==> #[trigger] self.follow_rule(f, views(fo@), q, j),
                        !changed ==> forall|j: int|
                            0 <= j < k ==> #[trigger] self.follow_rule(f, views(fo@), p as int, j),
                    decreases syms@.len() - k,
                {
                    let b = syms[k];
                    if !self.terminal[b] {
                        let ghost fo0 = views(fo@);
                        let tail = self.first_of(first, syms, k + 1);
                        let mut add = tail.minus(&SortedSet::singleton(EPSILON));
                        let tail_eps = tail.contains(EPSILON);
                        if tail_eps {
                            add.addall(fo[a].duplicate());
                        }
                        proof {
                            assert(tail@.difference(set![EPSILON]) =~= tail@.remove(EPSILON));
                            assert forall|x: usize| add@.contains(x) implies x < n by {
                                if !tail@.contains(x) {
                                    assert(fo@[a as int].bounded_by(n));
                                }
                            }
                        }
                        let grew = grow(&mut fo, b, add, Ghost(n));
                        proof {
                            self.lemma_table_room(fo@, n);
                            assert forall|g: Seq<Set<usize>>|
                                #[trigger] self.follow_closed(f, g) implies forall|c: int|
                                    0 <= c < n ==> (#[trigger] views(fo@)[c]).subset_of(g[c]) by {
                                assert forall|c: int| 0 <= c < n implies (#[trigger] views(fo@)[c]).subset_of(g[c]) by {
                                    assert(fo0[c].subset_of(g[c]));
                                    if c == b {
                                        assert(self.follow_rule(f, g, p as int, k as int));
                                        assert(fo0[a as int].subset_of(g[a as int]));
                                    }
                                }
                            }
                            if !grew {
                                assert(self.follow_rule(f, views(fo@), p as int, k as int));
                            }
                        }
                        if grew {
                            changed = true;
                        }
                    }
                    k = k + 1;
                }
                p = p + 1;
            }
        }
        fo
    }
}

} // verus!
