//! The SLR(1) action table of an LR(0) automaton.
use vstd::prelude::*;
use crate::sorted_set::SortedSet;
use crate::grammar::{Grammar, Item, END};
use crate::automaton::SLRAutomaton;

verus! {

/// An entry of the action table; `Error` stands for an empty entry.
#[derive(Clone, Copy, PartialEq, Eq, Structural, Debug)]
pub enum LRAction {
    Goto(usize),
    Shift(usize),
    Reduce(usize),
    Accept,
    Error,
}

/// The action table: `actions[state][symbol]`.
pub struct SLRTable {
    pub actions: Vec<Vec<LRAction>>,
}

/// Two different actions are owed at one state and symbol.
#[derive(Clone, Copy, PartialEq, Eq, Structural, Debug)]
pub struct TableConflict {
    pub state: usize,
    pub symbol: usize,
    pub first: LRAction,
    pub second: LRAction,
}

impl Grammar {
    /// The action that complete item `i` owes at symbol `y`: accept on the end marker for
    /// the root production, else a reduction on the symbols that follow its left-hand side.
    pub open spec fn item_action(&self, i: usize, y: usize, act: LRAction) -> bool {
        self.item_owes(i, y) && act == self.item_act(i)
    }

    /// Item `i` is complete and owes its action at `y`: the end marker for the root
    /// production, else the symbols that follow its left-hand side.
    pub open spec fn item_owes(&self, i: usize, y: usize) -> bool {
        let it = self.items@[i as int];
        let p = it.production as int;
        &&& it.dot == self.rhs(p).len()
        &&& if p == 0 {
            y == END
        } else {
            self.follow_set(self.lhs(p)).contains(y)
        }
    }

    /// The action of complete item `i`: accept for the root production, else reduce.
    pub open spec fn item_act(&self, i: usize) -> LRAction {
        let p = self.items@[i as int].production;
        if p == 0 {
            LRAction::Accept
        } else {
            LRAction::Reduce(p)
        }
    }

    /// The action that a transition on `y` to `t` owes: shift on a terminal, goto on a
    /// nonterminal.
    pub open spec fn move_action(&self, y: usize, t: usize) -> LRAction {
        if self.is_term(y) {
            LRAction::Shift(t)
        } else {
            LRAction::Goto(t)
        }
    }
}

impl<'a> SLRAutomaton<'a> {
    /// One of the first `k` transitions in `m` owes `act` at `y`.
    pub open spec fn move_prefix(&self, m: Seq<(usize, usize)>, k: int, y: usize, act: LRAction) -> bool {
        exists|j: int| 0 <= j < k && (#[trigger] m[j]).0 == y && act == self.grammar.move_action(y, m[j].1)
    }

    /// Some transition of state `s` owes `act` at `y`.
    pub open spec fn move_wanted(&self, s: int, y: usize, act: LRAction) -> bool {
        exists|k: int|
            0 <= k < self.states@[s].moves@.len() && (#[trigger] self.states@[s].moves@[k]).0 == y
                && act == self.grammar.move_action(y, self.states@[s].moves@[k].1)
    }

    /// Some complete item of state `s` owes `act` at `y`.
    pub open spec fn item_wanted(&self, s: int, y: usize, act: LRAction) -> bool {
        exists|i: usize| self.states@[s].items@.contains(i) && #[trigger] self.grammar.item_action(i, y, act)
    }

    /// The SLR rules ask for action `act` at state `s` and symbol `y`.
    pub open spec fn wanted(&self, s: int, y: usize, act: LRAction) -> bool {
        self.move_wanted(s, y, act) || self.item_wanted(s, y, act)
    }

    /// `t` holds at each state and symbol the one action asked for there, or `Error`.
    pub open spec fn table_exact(&self, t: Seq<Seq<LRAction>>) -> bool {
        &&& t.len() == self.states@.len()
        &&& forall|s: int| 0 <= s < t.len() ==> (#[trigger] t[s]).len() == self.grammar.num_symbols()
        &&& forall|s: int, y: usize, act: LRAction|
            0 <= s < t.len() && y < self.grammar.num_symbols() && act != LRAction::Error ==> (
            #[trigger] self.wanted(s, y, act) == (t[s][y as int] == act))
    }
}

impl SLRTable {
    pub open spec fn view_rows(&self) -> Seq<Seq<LRAction>> {
        self.actions@.map_values(|r: Vec<LRAction>| r@)
    }
}

/// Sets `row[y]` to `act` when empty; a different action already there is a conflict.
fn place(row: &mut Vec<LRAction>, state: usize, y: usize, act: LRAction) -> (r: Result<(), TableConflict>)
    requires
        y < old(row)@.len(),
        act != LRAction::Error,
    ensures
        final(row)@.len() == old(row)@.len(),
        match r {
            Ok(()) => {
                &&& final(row)@ == old(row)@.update(y as int, act)
                &&& (old(row)@[y as int] == LRAction::Error || old(row)@[y as int] == act)
            },
            Err(c) => {
                &&& c.state == state
                &&& c.symbol == y
                &&& c.first == old(row)@[y as int]
                &&& c.first != LRAction::Error
                &&& c.second == act
                &&& c.first != c.second
            },
        },
{
    let cur = row[y];
    if cur == LRAction::Error {
        row[y] = act;
        Ok(())
    } else if cur == act {
        assert(row@ =~= row@.update(y as int, act));
        Ok(())
    } else {
        Err(TableConflict { state, symbol: y, first: cur, second: act })
    }
}

impl<'a> SLRAutomaton<'a> {
    /// The symbols of the transitions of a state are symbols of the grammar.
    proof fn lemma_move_symbols(&self, s: int)
        requires
            self.wf(),
            0 <= s < self.states@.len(),
        ensures
            forall|k: int| 0 <= k < self.states@[s].moves@.len() ==> (#[trigger] self.states@[s].moves@[k]).0 < self.grammar.num_symbols(),
    {
        let g = self.grammar;
        assert forall|k: int| 0 <= k < self.states@[s].moves@.len() implies (#[trigger] self.states@[s].moves@[k]).0 < g.num_symbols() by {
            let m = self.states@[s].moves@;
            assert(g.moves_exact(self.sets(), s, m));
            assert(g.has_move(self.sets()[s], m[k].0));
            let i = choose|i: usize| self.sets()[s].contains(i) && i < g.num_items() && #[trigger] g.next_symbol(i as int) == Some(m[k].0);
            let it = g.items@[i as int];
            assert(g.rhs(it.production as int)[it.dot as int] < g.num_symbols());
        }
    }

    /// The row of state `s` with the actions of its transitions only.
    fn move_row(&self, s: usize) -> (row: Vec<LRAction>)
        requires
            self.wf(),
            s < self.states@.len(),
        ensures
            row@.len() == self.grammar.num_symbols(),
            forall|y: usize, act: LRAction|
                y < self.grammar.num_symbols() && act != LRAction::Error ==> (#[trigger] self.move_wanted(s as int, y, act) == (row@[y as int] == act)),
    {
        let g = self.grammar;
        let mut row: Vec<LRAction> = Vec::new();
        while row.len() < g.names.len()
            invariant
                row@.len() <= g.num_symbols(),
                forall|y: int| 0 <= y < row@.len() ==> row@[y] == LRAction::Error,
            decreases g.num_symbols() - row@.len(),
        {
            row.push(LRAction::Error);
        }
        proof {
            self.lemma_move_symbols(s as int);
        }
        let moves = &self.states[s].moves;
        assert(g.moves_exact(self.sets(), s as int, moves@));
        let mut k: usize = 0;
        while k < moves.len()
            invariant
                self.wf(),
                s < self.states@.len(),
                g == self.grammar,
                moves@ == self.states@[s as int].moves@,
                g.moves_exact(self.sets(), s as int, moves@),
                forall|j: int| 0 <= j < moves@.len() ==> (#[trigger] moves@[j]).0 < g.num_symbols(),
                k <= moves@.len(),
                row@.len() == g.num_symbols(),
                forall|y: usize, act: LRAction|
                    y < g.num_symbols() && act != LRAction::Error ==> ((row@[y as int] == act) == #[trigger] self.move_prefix(moves@, k as int, y, act)),
            decreases moves@.len() - k,
        {
            let (y, t) = moves[k];
            let act = if g.terminal[y] {
                LRAction::Shift(t)
            } else {
                LRAction::Goto(t)
            };
            assert(act == g.move_action(y, t));
            let ghost r0 = row@;
            proof {
                if r0[y as int] != LRAction::Error {
                    assert(self.move_prefix(moves@, k as int, y, r0[y as int]));
                    let j = choose|j: int| 0 <= j < k && (#[trigger] moves@[j]).0 == y && r0[y as int] == g.move_action(y, moves@[j].1);
                    assert(moves@[j].0 < moves@[k as int].0);
                }
            }
            row[y] = act;
            proof {
                assert forall|z: usize, b: LRAction|
                    z < g.num_symbols() && b != LRAction::Error implies ((row@[z as int] == b) == #[trigger] self.move_prefix(moves@, k + 1, z, b)) by {
                    if self.move_prefix(moves@, k + 1, z, b) {
                        let j = choose|j: int| 0 <= j < k + 1 && (#[trigger] moves@[j]).0 == z && b == g.move_action(z, moves@[j].1);
                        if j < k {
                            assert(self.move_prefix(moves@, k as int, z, b));
                            if z == y {
                                assert(moves@[j].0 < moves@[k as int].0);
                            }
                        }
                    }
                    if z != y && self.move_prefix(moves@, k as int, z, b) {
                        let j = choose|j: int| 0 <= j < k && (#[trigger] moves@[j]).0 == z && b == g.move_action(z, moves@[j].1);
                        assert(0 <= j < k + 1);
                    }
                    if z == y && row@[z as int] == b {
                        assert(moves@[k as int].0 == z);
                    }
                }
            }
            k = k + 1;
        }
        proof {
            assert forall|y: usize, act: LRAction|
                y < g.num_symbols() && act != LRAction::Error implies (#[trigger] self.move_wanted(s as int, y, act) == (row@[y as int] == act)) by {
                assert(self.move_wanted(s as int, y, act) == self.move_prefix(moves@, moves@.len() as int, y, act));
            }
        }
        row
    }
}

impl Grammar {
    /// One of the first `m` items of `items` owes `act` at `y`.
    pub open spec fn item_prefix(&self, items: Seq<usize>, m: int, y: usize, act: LRAction) -> bool {
        exists|j: int| 0 <= j < m && #[trigger] self.item_action(items[j], y, act)
    }

    /// Places the actions that item `i` owes into `row`, the row of state `state`.
    fn add_item_actions(&self, row0: Vec<LRAction>, state: usize, i: usize) -> (r: Result<Vec<LRAction>, TableConflict>)
        requires
            self.wf(),
            i < self.num_items(),
            row0@.len() == self.num_symbols(),
        ensures
            match r {
                Ok(row) => {
                    &&& row@.len() == self.num_symbols()
                    &&& forall|y: usize|
                        y < self.num_symbols() ==> row@[y as int] == if #[trigger] self.item_owes(i, y) {
                            self.item_act(i)
                        } else {
                            row0@[y as int]
                        }
                    &&& forall|y: usize|
                        y < self.num_symbols() && #[trigger] self.item_owes(i, y) ==> row0@[y as int] == LRAction::Error
                            || row0@[y as int] == self.item_act(i)
                },
                Err(c) => {
                    &&& c.state == state
                    &&& c.symbol < self.num_symbols()
                    &&& c.first == row0@[c.symbol as int]
                    &&& c.first != LRAction::Error
                    &&& c.first != c.second
                    &&& self.item_action(i, c.symbol, c.second)
                },
            },
    {
        let mut out = row0;
        let it: Item = self.items[i];
        let p = it.production;
        if it.dot != self.productions[p].symbols.len() {
            return Ok(out);
        }
        if p == 0 {
            let ghost r0 = out@;
            let res = place(&mut out, state, END, LRAction::Accept);
            proof {
                if res is Ok {
                    assert forall|y: usize| y < self.num_symbols() implies out@[y as int] == if #[trigger] self.item_owes(i, y) {
                        self.item_act(i)
                    } else {
                        r0[y as int]
                    } by {
                        assert(self.item_owes(i, y) == (y == END));
                    }
                }
            }
            return match res {
                Ok(()) => Ok(out),
                Err(c) => Err(c),
            };
        }
        let a = self.productions[p].nt;
        proof {
            self.lemma_rhs_bounded(p as int);
        }
        let fo = &self.follow[a];
        assert(fo.bounded_by(self.num_symbols()));
        let ghost r0 = out@;
        let red = LRAction::Reduce(p);
        let mut q: usize = 0;
        while q < fo.len()
            invariant
                self.wf(),
                i < self.num_items(),
                it == self.items@[i as int],
                p == it.production,
                p != 0,
                p < self.productions@.len(),
                it.dot == self.rhs(p as int).len(),
                a == self.lhs(p as int),
                a < self.num_symbols(),
                *fo == self.follow@[a as int],
                fo.wf(),
                fo.bounded_by(self.num_symbols()),
                red == LRAction::Reduce(p),
                r0 == row0@,
                q <= fo.seq().len(),
                out@.len() == self.num_symbols(),
                forall|y: usize|
                    y < self.num_symbols() ==> out@[y as int] == if #[trigger] fo.seq().subrange(0, q as int).contains(y) {
                        red
                    } else {
                        r0[y as int]
                    },
                forall|y: usize|
                    #[trigger] fo.seq().subrange(0, q as int).contains(y) ==> r0[y as int] == LRAction::Error || r0[y as int] == red,
            decreases fo.seq().len() - q,
        {
            let y = fo.get(q);
            let ghost r1 = out@;
            let ghost pre = fo.seq().subrange(0, q as int);
            let ghost post = fo.seq().subrange(0, q + 1);
            proof {
                assert(post =~= pre.push(y));
                assert(post[q as int] == y);
                assert forall|z: usize| post.contains(z) implies pre.contains(z) || z == y by {
                    let t = choose|t: int| 0 <= t < post.len() && post[t] == z;
                    if t < q {
                        assert(pre[t] == z);
                    }
                }
                assert forall|z: usize| pre.contains(z) implies post.contains(z) by {
                    let t = choose|t: int| 0 <= t < pre.len() && pre[t] == z;
                    assert(post[t] == z);
                }
                assert(post.contains(y));
            }
            let res = place(&mut out, state, y, red);
            match res {
                Ok(()) => {},
                Err(c) => {
                    proof {
                        assert(self.item_action(i, y, red));
                        if pre.contains(y) {
                            assert(r1[y as int] == red);
                        }
                        assert(c.first == r0[y as int]);
                    }
                    return Err(c);
                },
            }
            proof {
                if !pre.contains(y) {
                    assert(r1[y as int] == r0[y as int]);
                }
                assert forall|z: usize| z < self.num_symbols() implies out@[z as int] == if #[trigger] fo.seq().subrange(0, q + 1).contains(z) {
                    red
                } else {
                    r0[z as int]
                } by {
                    assert(fo.seq().subrange(0, q + 1) == post);
                    if z != y {
                        assert(out@[z as int] == r1[z as int]);
                    }
                }
                assert forall|z: usize|
                    #[trigger] fo.seq().subrange(0, q + 1).contains(z) implies r0[z as int] == LRAction::Error || r0[z as int] == red by {
                    assert(fo.seq().subrange(0, q + 1) == post);
                    if z == y && !pre.contains(y) {
                        assert(r1[y as int] == r0[y as int]);
                    }
                }
            }
            q = q + 1;
        }
        proof {
            assert(fo.seq().subrange(0, fo.seq().len() as int) =~= fo.seq());
            assert(self.follow_set(a) == fo@);
            assert(self.item_act(i) == red);
            assert forall|y: usize| y < self.num_symbols() implies out@[y as int] == if #[trigger] self.item_owes(i, y) {
                self.item_act(i)
            } else {
                row0@[y as int]
            } by {
                assert(fo.seq().subrange(0, q as int).contains(y) == fo@.contains(y));
                assert(self.item_owes(i, y) == fo@.contains(y));
            }
            assert forall|y: usize|
                y < self.num_symbols() && #[trigger] self.item_owes(i, y) implies row0@[y as int] == LRAction::Error
                    || row0@[y as int] == self.item_act(i) by {
                assert(fo.seq().subrange(0, q as int).contains(y) == fo@.contains(y));
            }
        }
        Ok(out)
    }
}

impl<'a> SLRAutomaton<'a> {
    /// Entry `y` of `row` holds `act` exactly when a transition of state `s`, or one of
    /// the first `m` items of `items`, owes it.
    pub open spec fn row_agrees(&self, row: Seq<LRAction>, s: int, items: Seq<usize>, m: int, y: usize, act: LRAction) -> bool {
        (row[y as int] == act) == (self.move_wanted(s, y, act) || self.grammar.item_prefix(items, m, y, act))
    }

    /// The SLR(1) table: shift and goto along the transitions, reduce by each complete
    /// item on the FOLLOW set of its left-hand side, accept on the end marker where the
    /// root production is complete. Two different actions at one entry are reported as a
    /// conflict, and no table is built.
    pub fn table(&self) -> (r: Result<SLRTable, TableConflict>)
        requires
            self.wf(),
            self.grammar.wf(),
        ensures
            match r {
                Ok(t) => self.table_exact(t.view_rows()),
                Err(c) => {
                    &&& c.state < self.states@.len()
                    &&& c.symbol < self.grammar.num_symbols()
                    &&& c.first != LRAction::Error
                    &&& c.second != LRAction::Error
                    &&& c.first != c.second
                    &&& self.wanted(c.state as int, c.symbol, c.first)
                    &&& self.wanted(c.state as int, c.symbol, c.second)
                },
            },
    {
        let g = self.grammar;
        let mut rows: Vec<Vec<LRAction>> = Vec::new();
        let mut s: usize = 0;
        while s < self.states.len()
            invariant
                self.wf(),
                g.wf(),
                g == self.grammar,
                s <= self.states@.len(),
                rows@.len() == s,
                forall|t: int| 0 <= t < s ==> (#[trigger] rows@[t])@.len() == g.num_symbols(),
                forall|t: int, y: usize, act: LRAction|
                    0 <= t < s && y < g.num_symbols() && act != LRAction::Error ==> (#[trigger] self.wanted(t, y, act) == (rows@[t]@[y as int] == act)),
            decreases self.states@.len() - s,
        {
            let mut row = self.move_row(s);
            let items: &SortedSet = &self.states[s].items;
            assert(g.valid_items(self.sets()[s as int]));
            assert(self.sets()[s as int] == items@);
            let mut m: usize = 0;
            while m < items.len()
                invariant
                    self.wf(),
                    g.wf(),
                    g == self.grammar,
                    s < self.states@.len(),
                    *items == self.states@[s as int].items,
                    g.valid_items(items@),
                    m <= items.seq().len(),
                    row@.len() == g.num_symbols(),
                    forall|y: usize, act: LRAction|
                        y < g.num_symbols() && act != LRAction::Error ==> #[trigger] self.row_agrees(row@, s as int, items.seq(), m as int, y, act),
                decreases items.seq().len() - m,
            {
                let i = items.get(m);
                let ghost r0 = row@;
                let res = g.add_item_actions(row, s, i);
                match res {
                    Ok(r) => {
                        row = r;
                    },
                    Err(c) => {
                        proof {
                            assert(items.seq()[m as int] == i);
                            assert(items@.contains(i));
                            assert(self.item_wanted(s as int, c.symbol, c.second));
                            assert(r0[c.symbol as int] == c.first);
                            assert(self.row_agrees(r0, s as int, items.seq(), m as int, c.symbol, c.first));
                            assert(self.move_wanted(s as int, c.symbol, c.first) || g.item_prefix(items.seq(), m as int, c.symbol, c.first));
                            if g.item_prefix(items.seq(), m as int, c.symbol, c.first) {
                                let j = choose|j: int| 0 <= j < m && #[trigger] g.item_action(items.seq()[j], c.symbol, c.first);
                                assert(items@.contains(items.seq()[j]));
                            }
                            assert(self.wanted(s as int, c.symbol, c.first));
                        }
                        return Err(c);
                    },
                }
                m = m + 1;
                proof {
                    let mm = m as int;
                    let m0 = mm - 1;
                    assert forall|y: usize, act: LRAction|
                        y < g.num_symbols() && act != LRAction::Error implies #[trigger] self.row_agrees(row@, s as int, items.seq(), mm, y, act) by {
                        assert(items.seq()[m0] == i);
                        if g.item_prefix(items.seq(), mm, y, act) {
                            let j = choose|j: int| 0 <= j < mm && #[trigger] g.item_action(items.seq()[j], y, act);
                            if j < m0 {
                                assert(g.item_prefix(items.seq(), m0, y, act));
                            }
                        }
                        if g.item_prefix(items.seq(), m0, y, act) {
                            let j = choose|j: int| 0 <= j < m0 && #[trigger] g.item_action(items.seq()[j], y, act);
                            assert(0 <= j < mm);
                        }
                        if g.item_action(i, y, act) {
                            assert(g.item_action(items.seq()[m0], y, act));
                        }
                        if g.item_owes(i, y) {
                            assert(row@[y as int] == g.item_act(i));
                            assert(r0[y as int] == LRAction::Error || r0[y as int] == g.item_act(i));
                        } else {
                            assert(row@[y as int] == r0[y as int]);
                        }
                        assert((row@[y as int] == act) == (r0[y as int] == act || g.item_action(i, y, act)));
                        assert(self.row_agrees(r0, s as int, items.seq(), m0, y, act));
                    }
                }
            }
            proof {
                assert forall|y: usize, act: LRAction|
                    y < g.num_symbols() && act != LRAction::Error implies (#[trigger] self.wanted(s as int, y, act) == (row@[y as int] == act)) by {
                    assert(self.row_agrees(row@, s as int, items.seq(), m as int, y, act));
                    if self.item_wanted(s as int, y, act) {
                        let i = choose|i: usize| self.states@[s as int].items@.contains(i) && #[trigger] g.item_action(i, y, act);
                        let j = choose|j: int| 0 <= j < items.seq().len() && items.seq()[j] == i;
                        assert(g.item_action(items.seq()[j], y, act));
                        assert(g.item_prefix(items.seq(), m as int, y, act));
                    }
                    if g.item_prefix(items.seq(), m as int, y, act) {
                        let j = choose|j: int| 0 <= j < m && #[trigger] g.item_action(items.seq()[j], y, act);
                        assert(items@.contains(items.seq()[j]));
                        assert(self.item_wanted(s as int, y, act));
                    }
                }
            }
            let ghost rows0 = rows@;
            rows.push(row);
            proof {
                assert forall|t: int, y: usize, act: LRAction|
                    0 <= t < s + 1 && y < g.num_symbols() && act != LRAction::Error implies (#[trigger] self.wanted(t, y, act) == (rows@[t]@[y as int] == act)) by {
                    if t < s {
                        assert(rows@[t] == rows0[t]);
                    }
                }
            }
            s = s + 1;
        }
        let t = SLRTable { actions: rows };
        proof {
            assert forall|st: int| 0 <= st < t.view_rows().len() implies (#[trigger] t.view_rows()[st]).len() == g.num_symbols() by {
                assert(t.view_rows()[st] == rows@[st]@);
            }
            assert forall|st: int, y: usize, act: LRAction|
                0 <= st < t.view_rows().len() && y < g.num_symbols() && act != LRAction::Error implies (
                #[trigger] self.wanted(st, y, act) == (t.view_rows()[st][y as int] == act)) by {
                assert(t.view_rows()[st] == rows@[st]@);
            }
        }
        Ok(t)
    }
}

impl<'a> SLRAutomaton<'a> {
    /// In a table built without conflict, each transition on a terminal is a shift and each
    /// transition on a nonterminal a goto, to the transition's target.
    pub proof fn lemma_table_moves(&self, t: Seq<Seq<LRAction>>, s: int, k: int)
        requires
            self.wf(),
            self.table_exact(t),
            0 <= s < self.states@.len(),
            0 <= k < self.states@[s].moves@.len(),
        ensures
            ({
                let (y, target) = self.states@[s].moves@[k];
                &&& y < self.grammar.num_symbols()
                &&& self.grammar.is_term(y) ==> t[s][y as int] == LRAction::Shift(target)
                &&& !self.grammar.is_term(y) ==> t[s][y as int] == LRAction::Goto(target)
            }),
    {
        self.lemma_move_symbols(s);
        let (y, target) = self.states@[s].moves@[k];
        let act = self.grammar.move_action(y, target);
        assert(self.move_prefix(self.states@[s].moves@, self.states@[s].moves@.len() as int, y, act));
        assert(self.wanted(s, y, act));
    }

    /// In a table built without conflict, each complete item of a state, but the root one,
    /// reduces at every symbol of FOLLOW of its left-hand side.
    pub proof fn lemma_table_reduces(&self, t: Seq<Seq<LRAction>>, s: int, i: usize, y: usize)
        requires
            self.wf(),
            self.grammar.wf(),
            self.table_exact(t),
            0 <= s < self.states@.len(),
            self.states@[s].items@.contains(i),
            self.grammar.items@[i as int].production != 0,
            self.grammar.items@[i as int].dot == self.grammar.rhs(self.grammar.items@[i as int].production as int).len(),
            self.grammar.follow_set(self.grammar.lhs(self.grammar.items@[i as int].production as int)).contains(y),
        ensures
            y < self.grammar.num_symbols(),
            t[s][y as int] == LRAction::Reduce(self.grammar.items@[i as int].production),
    {
        let g = self.grammar;
        assert(g.valid_items(self.sets()[s]));
        assert(self.sets()[s] == self.states@[s].items@);
        assert(i < g.num_items());
        let p = g.items@[i as int].production as int;
        g.lemma_rhs_bounded(p);
        assert(g.follow@[g.lhs(p) as int].bounded_by(g.num_symbols()));
        assert(g.item_action(i, y, LRAction::Reduce(p as usize)));
        assert(self.wanted(s, y, LRAction::Reduce(p as usize)));
    }
}

impl<'a> SLRAutomaton<'a> {
    /// Two automata with the same states have the same table.
    pub proof fn lemma_table_unique(&self, other: &SLRAutomaton, t1: Seq<Seq<LRAction>>, t2: Seq<Seq<LRAction>>)
        requires
            self.grammar == other.grammar,
            self.sets() == other.sets(),
            self.all_moves() == other.all_moves(),
            self.table_exact(t1),
            other.table_exact(t2),
        ensures
            t1 == t2,
    {
        assert(self.sets().len() == self.states@.len());
        assert(other.sets().len() == other.states@.len());
        assert(self.sets().len() == other.sets().len());
        assert(t1.len() == t2.len());
        assert(self.grammar.names@.len() == self.grammar.names.len());
        assert forall|s: int| 0 <= s < t1.len() implies t1[s] == t2[s] by {
            assert(self.states@[s].items@ == self.sets()[s]);
            assert(other.states@[s].items@ == other.sets()[s]);
            assert(self.states@[s].moves@ == self.all_moves()[s]);
            assert(other.states@[s].moves@ == other.all_moves()[s]);
            assert(t1[s].len() == t2[s].len());
            assert forall|y: int| 0 <= y < t1[s].len() implies t1[s][y] == t2[s][y] by {
                let yy = y as usize;
                assert(yy as int == y);
                assert forall|act: LRAction| act != LRAction::Error implies #[trigger] self.wanted(s, yy, act) == other.wanted(s, yy, act) by {
                    if self.move_wanted(s, yy, act) {
                        let k = choose|k: int| 0 <= k < self.states@[s].moves@.len() && (#[trigger] self.states@[s].moves@[k]).0 == yy && act == self.grammar.move_action(yy, self.states@[s].moves@[k].1);
                        assert(other.states@[s].moves@[k] == self.states@[s].moves@[k]);
                    }
                    if other.move_wanted(s, yy, act) {
                        let k = choose|k: int| 0 <= k < other.states@[s].moves@.len() && (#[trigger] other.states@[s].moves@[k]).0 == yy && act == other.grammar.move_action(yy, other.states@[s].moves@[k].1);
                        assert(other.states@[s].moves@[k] == self.states@[s].moves@[k]);
                    }
                }
                let a1 = t1[s][y];
                let a2 = t2[s][y];
                assert(t1[s][yy as int] == a1);
                assert(t2[s][yy as int] == a2);
                if a1 != LRAction::Error {
                    assert(self.wanted(s, yy, a1));
                    assert(other.wanted(s, yy, a1));
                    assert(a2 == a1);
                } else if a2 != LRAction::Error {
                    assert(self.wanted(s, yy, a2) == other.wanted(s, yy, a2));
                    assert(other.wanted(s, yy, a2));
                    assert(self.wanted(s, yy, a2));
                    assert(a1 == a2);
                }
            }
            assert(t1[s] =~= t2[s]);
        }
        assert(t1 =~= t2);
    }
}

/// Building twice from one grammar gives the same state ids, item sets, transitions and
/// table.
pub proof fn lemma_pipeline_deterministic(
    a1: &SLRAutomaton,
    a2: &SLRAutomaton,
    t1: Seq<Seq<LRAction>>,
    t2: Seq<Seq<LRAction>>,
)
    requires
        a1.wf(),
        a2.wf(),
        a1.grammar == a2.grammar,
        a1.table_exact(t1),
        a2.table_exact(t2),
    ensures
        a1.states@.len() == a2.states@.len(),
        a1.sets() == a2.sets(),
        a1.all_moves() == a2.all_moves(),
        t1 == t2,
{
    a1.lemma_deterministic(a2);
    a1.lemma_table_unique(a2, t1, t2);
}

} // verus!
