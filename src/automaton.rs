//! The canonical collection of LR(0) item sets and its transitions.
use vstd::prelude::*;
use vstd::arithmetic::power2::{pow2, lemma_pow2_unfold};
use vstd::set_lib::{lemma_len_subset, lemma_len_union, lemma_map_size_bound};
use crate::sorted_set::SortedSet;
use crate::grammar::Grammar;

verus! {

/// A family of subsets of `[0, n)` is finite and has at most `2^n` members.
pub proof fn lemma_subsets_bound(n: nat, f: Set<Set<usize>>)
    requires
        forall|s: Set<usize>, x: usize| #[trigger] f.contains(s) && #[trigger] s.contains(x) ==> x < n,
    ensures
        f.finite(),
        f.len() <= pow2(n),
    decreases n,
{
    if n == 0 {
        let e = Set::<usize>::empty();
        assert forall|s: Set<usize>| f.contains(s) implies set![e].contains(s) by {
            assert(s =~= e);
        }
        lemma_len_subset(f, set![e]);
        assert(pow2(0) == 1) by {
            vstd::arithmetic::power2::lemma2_to64();
        }
    } else {
        let m = (n - 1) as nat;
        let top = m as usize;
        let f0 = f.filter(|s: Set<usize>| !s.contains(top));
        let f1 = f.filter(|s: Set<usize>| s.contains(top));
        let rm = |s: Set<usize>| s.remove(top);
        let ins = |s: Set<usize>| s.insert(top);
        let g1 = f1.map(rm);
        assert forall|s: Set<usize>, x: usize| #[trigger] f0.contains(s) && #[trigger] s.contains(x) implies x < m by {
            assert(x < n);
        }
        lemma_subsets_bound(m, f0);
        assert forall|s: Set<usize>, x: usize| #[trigger] g1.contains(s) && #[trigger] s.contains(x) implies x < m by {
            let t = choose|t: Set<usize>| f1.contains(t) && rm(t) == s;
            assert(t.contains(x));
        }
        lemma_subsets_bound(m, g1);
        let h = g1.map(ins);
        lemma_map_size_bound(g1, h, ins);
        assert forall|s: Set<usize>| f1.contains(s) implies h.contains(s) by {
            assert(g1.contains(rm(s)));
            assert(ins(rm(s)) =~= s);
        }
        lemma_len_subset(f1, h);
        assert(f =~= f0.union(f1));
        lemma_len_union(f0, f1);
        lemma_pow2_unfold(n);
    }
}

/// A sequence of distinct subsets of `[0, n)` has at most `2^n` members.
pub proof fn lemma_distinct_subsets_bound(v: Seq<Set<usize>>, n: nat)
    requires
        v.no_duplicates(),
        forall|k: int, x: usize| 0 <= k < v.len() && #[trigger] v[k].contains(x) ==> x < n,
    ensures
        v.len() <= pow2(n),
{
    v.unique_seq_to_set();
    assert forall|s: Set<usize>, x: usize| #[trigger] v.to_set().contains(s) && #[trigger] s.contains(x) implies x < n by {
        let k = choose|k: int| 0 <= k < v.len() && v[k] == s;
    }
    lemma_subsets_bound(n, v.to_set());
}

/// A state of the LR(0) automaton: its id, its item set, and its transitions as
/// `(symbol, target state)` pairs in increasing order of symbol.
pub struct SLRState {
    pub id: usize,
    pub items: SortedSet,
    pub moves: Vec<(usize, usize)>,
}

/// The canonical collection of LR(0) item sets of a grammar; state ids are positions.
pub struct SLRAutomaton<'a> {
    pub grammar: &'a Grammar,
    pub states: Vec<SLRState>,
}

impl Grammar {
    /// The kernel of the start state: the root production with the dot at the left.
    pub open spec fn start_kernel(&self) -> Set<usize> {
        set![self.item_id(0, 0) as usize]
    }

    /// `moves` lists, in increasing order of symbol, exactly the symbols right of some dot
    /// in `sets[s]`, each with a target whose item set is goto(sets[s], symbol).
    pub open spec fn moves_exact(
        &self,
        sets: Seq<Set<usize>>,
        s: int,
        moves: Seq<(usize, usize)>,
    ) -> bool {
        &&& forall|a: int, b: int| 0 <= a < b < moves.len() ==> moves[a].0 < moves[b].0
        &&& forall|a: int|
            0 <= a < moves.len() ==> {
                &&& (#[trigger] moves[a]).1 < sets.len()
                &&& sets[moves[a].1 as int] == self.goto_of(sets[s], moves[a].0)
                &&& self.has_move(sets[s], moves[a].0)
            }
        &&& forall|x: usize|
            self.has_move(sets[s], x) ==> exists|a: int| 0 <= a < moves.len() && (#[trigger] moves[a]).0 == x
    }

    /// Each set after the first is goto of an earlier one on a symbol right of some dot.
    pub open spec fn reached(&self, sets: Seq<Set<usize>>, s: int) -> bool {
        exists|a: int, x: usize|
            0 <= a < s && sets[s] == #[trigger] self.goto_of(sets[a], x) && self.has_move(sets[a], x)
    }

    /// Distinct valid item sets, the first being the start closure.
    pub open spec fn collection_wf(&self, sets: Seq<Set<usize>>) -> bool {
        &&& sets.len() >= 1
        &&& sets[0] == self.closure_of(self.start_kernel())
        &&& forall|s: int| 0 <= s < sets.len() ==> self.valid_items(#[trigger] sets[s])
        &&& forall|a: int, b: int| 0 <= a < b < sets.len() ==> sets[a] != sets[b]
        &&& forall|s: int| 1 <= s < sets.len() ==> #[trigger] self.reached(sets, s)
    }
}

impl<'a> SLRAutomaton<'a> {
    /// The item sets of the states, in order of id.
    pub open spec fn sets(&self) -> Seq<Set<usize>> {
        self.states@.map_values(|st: SLRState| st.items@)
    }

    /// The transitions of the states, in order of id.
    pub open spec fn all_moves(&self) -> Seq<Seq<(usize, usize)>> {
        self.states@.map_values(|st: SLRState| st.moves@)
    }

    pub open spec fn wf(&self) -> bool {
        &&& self.grammar.shape_wf()
        &&& self.grammar.collection_wf(self.sets())
        &&& forall|s: int|
            0 <= s < self.states@.len() ==> {
                &&& (#[trigger] self.states@[s]).id == s
                &&& self.states@[s].items.wf()
                &&& self.grammar.moves_exact(self.sets(), s, self.states@[s].moves@)
            }
        &&& numbered_in_order(self.all_moves())
    }
}

/// Position of a set with the same elements as `s` in `sets`, if any.
fn find_state(sets: &Vec<SortedSet>, s: &SortedSet) -> (r: Option<usize>)
    requires
        s.wf(),
        forall|k: int| 0 <= k < sets@.len() ==> (#[trigger] sets@[k]).wf(),
    ensures
        match r {
            Some(t) => t < sets@.len() && sets@[t as int]@ == s@,
            None => forall|k: int| 0 <= k < sets@.len() ==> (#[trigger] sets@[k])@ != s@,
        },
{
    let mut k: usize = 0;
    while k < sets.len()
        invariant
            s.wf(),
            forall|j: int| 0 <= j < sets@.len() ==> (#[trigger] sets@[j]).wf(),
            k <= sets@.len(),
            forall|j: int| 0 <= j < k ==> (#[trigger] sets@[j])@ != s@,
        decreases sets@.len() - k,
    {
        let same = sets[k].eq(s);
        proof {
            sets@[k as int].lemma_seq_eq(s);
        }
        if same {
            return Some(k);
        }
        k = k + 1;
    }
    None
}

/// The id that the next new state gets, when the transitions before position `j` of
/// state `s` have been read in order: one more than the largest id seen so far, where each
/// transition leads to a state seen before or to the next new one.
pub open spec fn fresh_at(ms: Seq<Seq<(usize, usize)>>, s: int, j: int) -> int
    decreases s, j,
{
    if s < 0 || j < 0 || (s == 0 && j == 0) {
        1
    } else if j == 0 {
        fresh_at(ms, s - 1, ms[s - 1].len() as int)
    } else {
        let f = fresh_at(ms, s, j - 1);
        if ms[s][j - 1].1 == f {
            f + 1
        } else {
            f
        }
    }
}

/// The states are numbered in the order the transitions, read state by state, first reach
/// them: each transition leads to a state already seen or to the next new one, every state is
/// reached before its own transitions are read, and no state is left unreached.
pub open spec fn numbered_in_order(ms: Seq<Seq<(usize, usize)>>) -> bool {
    &&& forall|s: int, j: int|
        0 <= s < ms.len() && 0 <= j < ms[s].len() ==> (#[trigger] ms[s][j]).1 <= fresh_at(ms, s, j)
    &&& forall|s: int| 0 <= s < ms.len() ==> s < #[trigger] fresh_at(ms, s, 0)
    &&& fresh_at(ms, ms.len() as int, 0) == ms.len()
}

/// `fresh_at` depends only on the transitions before the position.
pub proof fn lemma_fresh_prefix(m1: Seq<Seq<(usize, usize)>>, m2: Seq<Seq<(usize, usize)>>, s: int, j: int)
    requires
        0 <= s,
        0 <= j,
        s <= m1.len(),
        s <= m2.len(),
        forall|t: int| 0 <= t < s ==> m1[t] == m2[t],
        j > 0 ==> s < m1.len() && s < m2.len() && j <= m1[s].len() && j <= m2[s].len() && forall|k: int|
            0 <= k < j ==> m1[s][k] == m2[s][k],
    ensures
        fresh_at(m1, s, j) == fresh_at(m2, s, j),
    decreases s, j,
{
    if s == 0 && j == 0 {
    } else if j == 0 {
        lemma_fresh_prefix(m1, m2, s - 1, m1[s - 1].len() as int);
    } else {
        lemma_fresh_prefix(m1, m2, s, j - 1);
    }
}

/// The transition lists of a sequence of vectors.
pub open spec fn moves_views(v: Seq<Vec<(usize, usize)>>) -> Seq<Seq<(usize, usize)>> {
    v.map_values(|m: Vec<(usize, usize)>| m@)
}

/// The element sets of a sequence of sorted sets.
pub open spec fn views(v: Seq<SortedSet>) -> Seq<Set<usize>> {
    v.map_values(|s: SortedSet| s@)
}

impl Grammar {
    /// Transitions stay exact when more sets are appended.
    pub proof fn lemma_moves_exact_extend(
        &self,
        v1: Seq<Set<usize>>,
        v2: Seq<Set<usize>>,
        s: int,
        m: Seq<(usize, usize)>,
    )
        requires
            0 <= s < v1.len() <= v2.len(),
            v1 == v2.subrange(0, v1.len() as int),
            self.moves_exact(v1, s, m),
        ensures
            self.moves_exact(v2, s, m),
    {
        assert forall|a: int| 0 <= a < m.len() implies {
            &&& (#[trigger] m[a]).1 < v2.len()
            &&& v2[m[a].1 as int] == self.goto_of(v2[s], m[a].0)
            &&& self.has_move(v2[s], m[a].0)
        } by {
            assert(v1[m[a].1 as int] == v2[m[a].1 as int]);
            assert(v1[s] == v2[s]);
        }
        assert(v1[s] == v2[s]);
    }

    /// The item set of the start state: the closure of the root item.
    pub fn start_items(&self) -> (r: SortedSet)
        requires
            self.shape_wf(),
        ensures
            r.wf(),
            self.valid_items(r@),
            r@ == self.start_kernel(),
    {
        assert(self.item_id(0, 0) < self.num_items());
        SortedSet::singleton(self.item_base[0])
    }

    /// The canonical collection of LR(0) item sets, from the start closure, with the
    /// transitions of every state.
    #[allow(non_snake_case)]
    pub fn LR0_automaton(&self) -> (r: SLRAutomaton<'_>)
        requires
            self.shape_wf(),
        ensures
            r.wf(),
            r.grammar == self,
    {
        let ghost n = self.num_items() as nat;
        let start = self.closure(&self.start_items());
        let mut sets: Vec<SortedSet> = Vec::new();
        sets.push(start);
        let mut all_moves: Vec<Vec<(usize, usize)>> = Vec::new();
        proof {
            assert(views(sets@) =~= seq![start@]);
            vstd::arithmetic::power2::lemma_pow2_pos(n);
        }
        let mut i: usize = 0;
        while i < sets.len()
            invariant
                self.shape_wf(),
                n == self.num_items(),
                i == all_moves@.len(),
                i <= sets@.len() <= pow2(n),
                forall|k: int| 0 <= k < sets@.len() ==> (#[trigger] sets@[k]).wf(),
                self.collection_wf(views(sets@)),
                forall|s: int| 0 <= s < i ==> self.moves_exact(views(sets@), s, (#[trigger] all_moves@[s])@),
                sets@.len() == fresh_at(moves_views(all_moves@), i as int, 0),
                forall|s: int, j: int|
                    0 <= s < i && 0 <= j < all_moves@[s]@.len() ==> (#[trigger] moves_views(all_moves@)[s][j]).1
                        <= fresh_at(moves_views(all_moves@), s, j),
                forall|s: int| 0 <= s < i ==> s < #[trigger] fresh_at(moves_views(all_moves@), s, 0),
            decreases pow2(n) - i,
        {
            let ghost ms = moves_views(all_moves@);
            assert(self.valid_items(views(sets@)[i as int]));
            let mv = self.moves(&sets[i]);
            let mut trans: Vec<(usize, usize)> = Vec::new();
            let ghost sets0 = sets@;
            proof {
                assert forall|t: int| 0 <= t < i implies ms[t] == ms.push(trans@)[t] by {}
                lemma_fresh_prefix(ms, ms.push(trans@), i as int, 0);
            }
            let mut k: usize = 0;
            while k < mv.len()
                invariant
                    self.shape_wf(),
                    n == self.num_items(),
                    i < sets0.len() <= sets@.len() <= pow2(n),
                    sets0 == sets@.subrange(0, sets0.len() as int),
                    forall|j: int| 0 <= j < sets@.len() ==> (#[trigger] sets@[j]).wf(),
                    self.collection_wf(views(sets@)),
                    k <= mv@.len(),
                    trans@.len() == k,
                    forall|a: int, b: int| 0 <= a < b < mv@.len() ==> mv@[a].0 < mv@[b].0,
                    forall|a: int|
                        0 <= a < mv@.len() ==> {
                            &&& (#[trigger] mv@[a]).1.wf()
                            &&& self.valid_items(mv@[a].1@)
                            &&& mv@[a].1@ == self.goto_of(sets0[i as int]@, mv@[a].0)
                            &&& self.has_move(sets0[i as int]@, mv@[a].0)
                        },
                    forall|a: int|
                        0 <= a < k ==> {
                            &&& (#[trigger] trans@[a]).0 == mv@[a].0
                            &&& trans@[a].1 < sets@.len()
                            &&& sets@[trans@[a].1 as int]@ == mv@[a].1@
                        },
                    ms == moves_views(all_moves@),
                    ms.len() == i,
                    sets@.len() == fresh_at(ms.push(trans@), i as int, k as int),
                    forall|j: int| 0 <= j < k ==> (#[trigger] trans@[j]).1 <= fresh_at(ms.push(trans@), i as int, j),
                decreases mv@.len() - k,
            {
                let ghost tr0 = trans@;
                let ghost len0 = sets@.len();
                let x = mv[k].0;
                match find_state(&sets, &mv[k].1) {
                    Some(t) => {
                        trans.push((x, t));
                    },
                    None => {
                        let t = sets.len();
                        let ghost before = sets@;
                        sets.push(mv[k].1.duplicate());
                        trans.push((x, t));
                        proof {
                            let v = views(sets@);
                            let vb = views(before);
                            assert(vb =~= v.subrange(0, vb.len() as int));
                            assert(v[t as int] == self.goto_of(v[i as int], x));
                            assert forall|a: int, b: int| 0 <= a < b < v.len() implies v[a] != v[b] by {
                                if b < vb.len() {
                                    assert(vb[a] != vb[b]);
                                } else {
                                    assert(before[a]@ != mv@[k as int].1@);
                                }
                            }
                            assert forall|s: int| 1 <= s < v.len() implies #[trigger] self.reached(v, s) by {
                                if s < vb.len() {
                                    assert(self.reached(vb, s));
                                    let (a, y) = choose|a: int, y: usize| 0 <= a < s && vb[s] == #[trigger] self.goto_of(vb[a], y) && self.has_move(vb[a], y);
                                    assert(v[s] == self.goto_of(v[a], y));
                                    assert(v[a] == vb[a]);
                                } else {
                                    assert(v[s] == self.goto_of(v[i as int], x));
                                    assert(v[i as int] == sets0[i as int]@);
                                    assert(self.has_move(v[i as int], x));
                                }
                            }
                            assert forall|s: int| 0 <= s < v.len() implies self.valid_items(#[trigger] v[s]) by {
                                if s < vb.len() {
                                    assert(v[s] == vb[s]);
                                }
                            }
                            assert(v.no_duplicates());
                            assert forall|j: int, y: usize| 0 <= j < v.len() && #[trigger] v[j].contains(y) implies y < n by {
                                assert(self.valid_items(v[j]));
                            }
                            lemma_distinct_subsets_bound(v, n);
                            assert(sets0 == sets@.subrange(0, sets0.len() as int));
                        }
                    },
                }
                proof {
                    assert forall|a: int| 0 <= a < k + 1 implies {
                        &&& (#[trigger] trans@[a]).0 == mv@[a].0
                        &&& trans@[a].1 < sets@.len()
                        &&& sets@[trans@[a].1 as int]@ == mv@[a].1@
                    } by {
                    }
                    let m0 = ms.push(tr0);
                    let m1 = ms.push(trans@);
                    assert(trans@ == tr0.push(trans@[k as int]));
                    assert forall|j: int| 0 <= j <= k implies #[trigger] fresh_at(m1, i as int, j) == fresh_at(m0, i as int, j) by {
                        assert forall|t: int| 0 <= t < i implies m0[t] == m1[t] by {}
                        lemma_fresh_prefix(m0, m1, i as int, j);
                    }
                    let f = fresh_at(m0, i as int, k as int);
                    assert(m1[i as int][k as int] == trans@[k as int]);
                    assert(fresh_at(m1, i as int, k as int) == f);
                    let kk = k + 1;
                    assert(fresh_at(m1, i as int, kk) == if m1[i as int][kk - 1].1 == fresh_at(m1, i as int, kk - 1) {
                        fresh_at(m1, i as int, kk - 1) + 1
                    } else {
                        fresh_at(m1, i as int, kk - 1)
                    });
                    assert(len0 == f);
                    assert forall|j: int| 0 <= j < k + 1 implies (#[trigger] trans@[j]).1 <= fresh_at(ms.push(trans@), i as int, j) by {
                        if j < k {
                            assert(trans@[j] == tr0[j]);
                        }
                    }
                }
                k = k + 1;
            }
            proof {
                let v = views(sets@);
                let v0 = views(sets0);
                assert(v0 =~= v.subrange(0, v0.len() as int));
                assert(v[i as int] == sets0[i as int]@);
                assert forall|x: usize| self.has_move(v[i as int], x) implies exists|a: int|
                    0 <= a < trans@.len() && (#[trigger] trans@[a]).0 == x by {
                    let a = choose|a: int| 0 <= a < mv@.len() && (#[trigger] mv@[a]).0 == x;
                    assert(trans@[a].0 == x);
                }
                assert(self.moves_exact(v, i as int, trans@));
                assert forall|s: int| 0 <= s < i implies self.moves_exact(v, s, (#[trigger] all_moves@[s])@) by {
                    self.lemma_moves_exact_extend(v0, v, s, all_moves@[s]@);
                }
            }
            let ghost tr = trans@;
            all_moves.push(trans);
            proof {
                let m2 = moves_views(all_moves@);
                assert(m2 =~= ms.push(tr));
                assert forall|s: int, j: int| 0 <= s <= i && 0 <= j <= m2[s].len() implies #[trigger] fresh_at(m2, s, j) == fresh_at(ms, s, j) || s == i by {
                    if s < i {
                        assert forall|t: int| 0 <= t < s implies m2[t] == ms[t] by {}
                        lemma_fresh_prefix(ms, m2, s, j);
                    }
                }
                assert(fresh_at(m2, i + 1, 0) == fresh_at(m2, i as int, tr.len() as int));
                assert forall|s: int, j: int|
                    0 <= s < i + 1 && 0 <= j < all_moves@[s]@.len() implies (#[trigger] moves_views(all_moves@)[s][j]).1
                        <= fresh_at(moves_views(all_moves@), s, j) by {
                    if s < i {
                        assert forall|t: int| 0 <= t < s implies m2[t] == ms[t] by {}
                        lemma_fresh_prefix(ms, m2, s, j);
                        assert(m2[s] == ms[s]);
                    } else {
                        assert(m2[s] == tr);
                    }
                }
                assert forall|s: int| 0 <= s < i + 1 implies s < #[trigger] fresh_at(moves_views(all_moves@), s, 0) by {
                    assert forall|t: int| 0 <= t < s implies m2[t] == ms[t] by {}
                    lemma_fresh_prefix(ms, m2, s, 0);
                    if s == i {
                        assert(fresh_at(ms, i as int, 0) == sets0.len());
                    }
                }
            }
            i = i + 1;
        }
        let ghost am = all_moves@;
        let ghost fin = sets@;
        assert(numbered_in_order(moves_views(am)));
        let mut states: Vec<SLRState> = Vec::new();
        let mut j: usize = 0;
        while j < sets.len()
            invariant
                sets@ == fin,
                am.len() == fin.len(),
                numbered_in_order(moves_views(am)),
                all_moves@.len() == fin.len(),
                forall|k: int| 0 <= k < fin.len() ==> (#[trigger] fin[k]).wf(),
                j <= fin.len(),
                states@.len() == j,
                forall|s: int| j <= s < fin.len() ==> all_moves@[s] == am[s],
                forall|s: int|
                    0 <= s < j ==> {
                        &&& (#[trigger] states@[s]).id == s
                        &&& states@[s].items@ == fin[s]@
                        &&& states@[s].items.wf()
                        &&& states@[s].moves@ == am[s]@
                    },
            decreases fin.len() - j,
        {
            let mut m: Vec<(usize, usize)> = Vec::new();
            std::mem::swap(&mut m, &mut all_moves[j]);
            states.push(SLRState { id: j, items: sets[j].duplicate(), moves: m });
            j = j + 1;
        }
        let r = SLRAutomaton { grammar: self, states };
        proof {
            assert(r.sets() =~= views(fin));
            assert(r.all_moves() =~= moves_views(am));
            assert forall|s: int| 0 <= s < r.states@.len() implies {
                &&& (#[trigger] r.states@[s]).id == s
                &&& r.states@[s].items.wf()
                &&& self.moves_exact(r.sets(), s, r.states@[s].moves@)
            } by {
                assert(self.moves_exact(views(fin), s, am[s]@));
            }
        }
        r
    }
}

impl<'a> SLRAutomaton<'a> {
    /// goto of a state's item set on a symbol is the item set of the state that its
    /// transition on that symbol leads to, and empty where it has no such transition.
    pub proof fn lemma_goto_compositional(&self, s: int, x: usize)
        requires
            self.wf(),
            0 <= s < self.states@.len(),
        ensures
            forall|k: int|
                0 <= k < self.states@[s].moves@.len() && (#[trigger] self.states@[s].moves@[k]).0 == x
                    ==> self.grammar.goto_of(self.states@[s].items@, x) == self.states@[self.states@[s].moves@[k].1 as int].items@,
            (forall|k: int| 0 <= k < self.states@[s].moves@.len() ==> (#[trigger] self.states@[s].moves@[k]).0 != x)
                ==> self.grammar.goto_of(self.states@[s].items@, x) == Set::<usize>::empty(),
    {
        let g = self.grammar;
        let m = self.states@[s].moves@;
        assert(g.moves_exact(self.sets(), s, m));
        assert(self.sets()[s] == self.states@[s].items@);
        assert forall|k: int| 0 <= k < m.len() && (#[trigger] m[k]).0 == x implies g.goto_of(self.states@[s].items@, x)
            == self.states@[m[k].1 as int].items@ by {
            assert(self.sets()[m[k].1 as int] == self.states@[m[k].1 as int].items@);
        }
        if forall|k: int| 0 <= k < m.len() ==> (#[trigger] m[k]).0 != x {
            assert(!g.has_move(self.sets()[s], x));
            assert(g.kernel(self.states@[s].items@, x) =~= Set::<usize>::empty()) by {
                assert forall|j: usize| !g.kernel(self.states@[s].items@, x).contains(j) by {
                    if g.kernel(self.states@[s].items@, x).contains(j) {
                        assert(g.next_symbol(((j - 1) as usize) as int) == Some(x));
                    }
                }
            }
            g.lemma_closure_empty();
        }
    }

    /// Every item set of this automaton is an item set of any other automaton of the
    /// same grammar.
    pub proof fn lemma_state_in(&self, other: &SLRAutomaton, k: int)
        requires
            self.wf(),
            other.wf(),
            self.grammar == other.grammar,
            0 <= k < self.states@.len(),
        ensures
            other.sets().contains(self.sets()[k]),
        decreases k,
    {
        let g = self.grammar;
        if k == 0 {
            assert(other.sets()[0] == self.sets()[0]);
        } else {
            assert(g.reached(self.sets(), k));
            let (a, x) = choose|a: int, x: usize|
                0 <= a < k && self.sets()[k] == #[trigger] g.goto_of(self.sets()[a], x) && g.has_move(self.sets()[a], x);
            self.lemma_state_in(other, a);
            let t = choose|t: int| 0 <= t < other.sets().len() && other.sets()[t] == self.sets()[a];
            assert(g.moves_exact(other.sets(), t, other.states@[t].moves@));
            let m = other.states@[t].moves@;
            let j = choose|j: int| 0 <= j < m.len() && (#[trigger] m[j]).0 == x;
            assert(other.sets()[m[j].1 as int] == self.sets()[k]);
        }
    }

    /// Two automata of one grammar have the same item sets, as many of them, each once.
    pub proof fn lemma_same_collection(&self, other: &SLRAutomaton)
        requires
            self.wf(),
            other.wf(),
            self.grammar == other.grammar,
        ensures
            self.sets().to_set() == other.sets().to_set(),
            self.states@.len() == other.states@.len(),
    {
        assert forall|x: Set<usize>| self.sets().to_set().contains(x) implies other.sets().to_set().contains(x) by {
            let k = choose|k: int| 0 <= k < self.sets().len() && self.sets()[k] == x;
            self.lemma_state_in(other, k);
        }
        assert forall|x: Set<usize>| other.sets().to_set().contains(x) implies self.sets().to_set().contains(x) by {
            let k = choose|k: int| 0 <= k < other.sets().len() && other.sets()[k] == x;
            other.lemma_state_in(self, k);
        }
        assert(self.sets().to_set() =~= other.sets().to_set());
        assert(self.sets().no_duplicates());
        assert(other.sets().no_duplicates());
        self.sets().unique_seq_to_set();
        other.sets().unique_seq_to_set();
    }
}

impl Grammar {
    /// Exact transition lists of two states with one item set list the same symbols.
    pub proof fn lemma_move_symbols_equal(
        &self,
        v1: Seq<Set<usize>>,
        s1: int,
        m1: Seq<(usize, usize)>,
        v2: Seq<Set<usize>>,
        s2: int,
        m2: Seq<(usize, usize)>,
    )
        requires
            self.moves_exact(v1, s1, m1),
            self.moves_exact(v2, s2, m2),
            v1[s1] == v2[s2],
        ensures
            m1.len() == m2.len(),
            forall|k: int| 0 <= k < m1.len() ==> (#[trigger] m1[k]).0 == m2[k].0,
    {
        let a = m1.map_values(|m: (usize, usize)| m.0);
        let b = m2.map_values(|m: (usize, usize)| m.0);
        assert(crate::sorted_set::strictly_sorted(a));
        assert(crate::sorted_set::strictly_sorted(b));
        assert forall|x: usize| a.to_set().contains(x) implies b.to_set().contains(x) by {
            let k = choose|k: int| 0 <= k < a.len() && a[k] == x;
            assert(self.has_move(v1[s1], m1[k].0));
            let l = choose|l: int| 0 <= l < m2.len() && (#[trigger] m2[l]).0 == x;
            assert(b[l] == x);
        }
        assert forall|x: usize| b.to_set().contains(x) implies a.to_set().contains(x) by {
            let k = choose|k: int| 0 <= k < b.len() && b[k] == x;
            assert(self.has_move(v2[s2], m2[k].0));
            let l = choose|l: int| 0 <= l < m1.len() && (#[trigger] m1[l]).0 == x;
            assert(a[l] == x);
        }
        assert(a.to_set() =~= b.to_set());
        crate::sorted_set::lemma_sorted_unique(a, b);
        assert forall|k: int| 0 <= k < m1.len() implies (#[trigger] m1[k]).0 == m2[k].0 by {
            assert(a[k] == b[k]);
        }
    }
}

impl<'a> SLRAutomaton<'a> {
    /// Reading the transitions of two automata of one grammar in order, up to position `j`
    /// of state `s`, both have read the same transitions and numbered the same item sets alike.
    #[verifier::spinoff_prover]
    #[verifier::rlimit(80)]
    proof fn lemma_same_numbering(&self, other: &SLRAutomaton, s: int, j: int)
        requires
            self.wf(),
            other.wf(),
            self.grammar == other.grammar,
            self.states@.len() == other.states@.len(),
            0 <= s < self.states@.len(),
            0 <= j <= self.all_moves()[s].len(),
        ensures
            forall|t: int| 0 <= t < s ==> self.all_moves()[t] == other.all_moves()[t],
            self.all_moves()[s].len() == other.all_moves()[s].len(),
            forall|k: int| 0 <= k < j ==> self.all_moves()[s][k] == other.all_moves()[s][k],
            fresh_at(self.all_moves(), s, j) == fresh_at(other.all_moves(), s, j),
            fresh_at(self.all_moves(), s, j) <= self.states@.len(),
            forall|t: int| 0 <= t < fresh_at(self.all_moves(), s, j) ==> self.sets()[t] == other.sets()[t],
            self.sets()[s] == other.sets()[s],
        decreases s, j,
    {
        let g = self.grammar;
        let ma = self.all_moves();
        let mb = other.all_moves();
        let n = self.states@.len();
        assert(ma.len() == n && mb.len() == n);
        if j == 0 {
            if s == 0 {
                assert(self.sets()[0] == other.sets()[0]);
            } else {
                self.lemma_same_numbering(other, s - 1, ma[s - 1].len() as int);
                assert(ma[s - 1] =~= mb[s - 1]);
                assert(s < fresh_at(ma, s, 0));
            }
            assert(g.moves_exact(self.sets(), s, self.states@[s].moves@));
            assert(g.moves_exact(other.sets(), s, other.states@[s].moves@));
            g.lemma_move_symbols_equal(self.sets(), s, ma[s], other.sets(), s, mb[s]);
        } else {
            self.lemma_same_numbering(other, s, j - 1);
            let k = j - 1;
            let f = fresh_at(ma, s, k);
            let (x, ta) = ma[s][k];
            let (xb, tb) = mb[s][k];
            assert(g.moves_exact(self.sets(), s, ma[s]));
            assert(g.moves_exact(other.sets(), s, mb[s]));
            g.lemma_move_symbols_equal(self.sets(), s, ma[s], other.sets(), s, mb[s]);
            assert(xb == x);
            assert(self.sets()[ta as int] == g.goto_of(self.sets()[s], x));
            assert(other.sets()[tb as int] == g.goto_of(other.sets()[s], x));
            assert(ta as int <= f);
            assert(tb as int <= fresh_at(mb, s, k));
            if (ta as int) < f {
                assert(self.sets()[ta as int] == other.sets()[ta as int]);
                if ta != tb {
                    assert(other.sets()[ta as int] != other.sets()[tb as int]);
                }
            } else {
                if (tb as int) < f {
                    assert(self.sets()[tb as int] == other.sets()[tb as int]);
                    assert(self.sets()[tb as int] != self.sets()[ta as int]);
                }
            }
            assert(ta == tb);
            assert(ma[s][k] == mb[s][k]);
        }
    }

    /// Two automata of one grammar are the same: the same item set under each state id,
    /// and the same transitions.
    pub proof fn lemma_deterministic(&self, other: &SLRAutomaton)
        requires
            self.wf(),
            other.wf(),
            self.grammar == other.grammar,
        ensures
            self.states@.len() == other.states@.len(),
            self.sets() == other.sets(),
            self.all_moves() == other.all_moves(),
            forall|s: int| 0 <= s < self.states@.len() ==> (#[trigger] self.states@[s]).id == other.states@[s].id,
    {
        self.lemma_same_collection(other);
        let n = self.states@.len();
        let ma = self.all_moves();
        let mb = other.all_moves();
        self.lemma_same_numbering(other, n - 1, ma[n - 1].len() as int);
        assert(ma[n - 1] =~= mb[n - 1]);
        assert(fresh_at(ma, n as int, 0) == n);
        assert(ma =~= mb);
        assert(self.sets() =~= other.sets());
    }
}

} // verus!
