//! Construction of an indexed grammar from a parse tree.
use vstd::prelude::*;
use crate::sorted_set::SortedSet;
use crate::grammar::{Grammar, GrammarError, Item, Node, Production, Symbol, END, EPSILON, FIRST_USER, ROOT};
use crate::first_follow::table_wf;
use crate::automaton::views;

verus! {

pub open spec fn term_label() -> Seq<char> {
    seq!['T', 'e', 'r', 'm']
}

pub open spec fn nonterm_label() -> Seq<char> {
    seq!['N', 'o', 'n', 'T', 'e', 'r', 'm']
}

pub open spec fn empty_label() -> Seq<char> {
    seq!['E', 'm', 'p', 't', 'y']
}

/// A `Term` or `NonTerm` node with a name leaf.
pub open spec fn symbol_node_ok(n: Node) -> bool {
    (n.label@ == term_label() || n.label@ == nonterm_label()) && n.kids@.len() >= 1
}

/// A rule whose only child is an `Empty` node: the ε alternative.
pub open spec fn empty_rule(r: Node) -> bool {
    r.kids@.len() == 1 && r.kids@[0].label@ == empty_label()
}

pub open spec fn rule_ok(r: Node) -> bool {
    empty_rule(r) || forall|k: int| 0 <= k < r.kids@.len() ==> symbol_node_ok(#[trigger] r.kids@[k])
}

/// A production node: a `NonTerm` node with a name leaf, then a body of at least one rule.
pub open spec fn production_node_ok(pn: Node) -> bool {
    &&& pn.kids@.len() >= 2
    &&& pn.kids@[0].label@ == nonterm_label()
    &&& pn.kids@[0].kids@.len() >= 1
    &&& pn.kids@[1].kids@.len() >= 1
    &&& forall|j: int| 0 <= j < pn.kids@[1].kids@.len() ==> rule_ok(#[trigger] pn.kids@[1].kids@[j])
}

/// The tree has at least one production node, and every node has the expected shape.
pub open spec fn tree_ok(root: Node) -> bool {
    root.kids@.len() >= 1 && forall|i: int| 0 <= i < root.kids@.len() ==> production_node_ok(#[trigger] root.kids@[i])
}

/// A symbol by kind and name: `(is a terminal, name)`.
pub open spec fn node_symbol(n: Node) -> (bool, Seq<char>) {
    (n.label@ == term_label(), n.kids@[0].label@)
}

pub open spec fn rule_symbols(r: Node) -> Seq<(bool, Seq<char>)> {
    if empty_rule(r) {
        Seq::empty()
    } else {
        r.kids@.map_values(|k: Node| node_symbol(k))
    }
}

pub open spec fn lhs_name(pn: Node) -> Seq<char> {
    pn.kids@[0].kids@[0].label@
}

/// The rules of one production node: left-hand side name and right-hand side symbols.
pub open spec fn node_rules(pn: Node) -> Seq<(Seq<char>, Seq<(bool, Seq<char>)>)> {
    pn.kids@[1].kids@.map_values(|r: Node| (lhs_name(pn), rule_symbols(r)))
}

/// All rules of the tree, in order of appearance.
pub open spec fn tree_rules(root: Node) -> Seq<(Seq<char>, Seq<(bool, Seq<char>)>)> {
    root.kids@.map_values(|pn: Node| node_rules(pn)).flatten()
}

/// A right-hand side of `rules` names the nonterminal `name`, and no rule defines it.
pub open spec fn undefined_in(rules: Seq<(Seq<char>, Seq<(bool, Seq<char>)>)>, name: Seq<char>) -> bool {
    &&& exists|k: int, j: int|
        0 <= k < rules.len() && 0 <= j < rules[k].1.len() && #[trigger] rules[k].1[j] == (false, name)
    &&& forall|k: int| 0 <= k < rules.len() ==> (#[trigger] rules[k]).0 != name
}

pub open spec fn sym_named(names: Seq<String>, terminal: Seq<bool>, x: usize) -> (bool, Seq<char>) {
    (terminal[x as int], names[x as int]@)
}

pub open spec fn prod_named(names: Seq<String>, terminal: Seq<bool>, p: Production) -> (Seq<char>, Seq<(bool, Seq<char>)>) {
    (names[p.nt as int]@, p.symbols@.map_values(|x: usize| sym_named(names, terminal, x)))
}

pub open spec fn prods_named(names: Seq<String>, terminal: Seq<bool>, prods: Seq<Production>) -> Seq<(Seq<char>, Seq<(bool, Seq<char>)>)> {
    prods.map_values(|p: Production| prod_named(names, terminal, p))
}

/// No two symbols of the grammar text share kind and name.
pub open spec fn names_unique(names: Seq<String>, terminal: Seq<bool>) -> bool {
    forall|i: usize, j: usize|
        FIRST_USER <= i < j < names.len() ==> #[trigger] sym_named(names, terminal, i) != #[trigger] sym_named(names, terminal, j)
}

impl Grammar {
    /// The rules of the grammar text, by name: every production but the root one.
    pub open spec fn named_rules(&self) -> Seq<(Seq<char>, Seq<(bool, Seq<char>)>)> {
        prods_named(self.names@, self.terminal@, self.productions@.drop_first())
    }
}

fn label_is(n: &Node, lit: &str) -> (r: bool)
    ensures
        r == (n.label@ == lit@),
{
    let l: String = lit.to_owned();
    n.label == l
}

fn is_term_label(n: &Node) -> (r: bool)
    ensures
        r == (n.label@ == term_label()),
{
    proof {
        reveal_strlit("Term");
        assert("Term"@ =~= term_label());
    }
    label_is(n, "Term")
}

fn is_nonterm_label(n: &Node) -> (r: bool)
    ensures
        r == (n.label@ == nonterm_label()),
{
    proof {
        reveal_strlit("NonTerm");
        assert("NonTerm"@ =~= nonterm_label());
    }
    label_is(n, "NonTerm")
}

fn is_empty_rule(r: &Node) -> (b: bool)
    ensures
        b == empty_rule(*r),
{
    proof {
        reveal_strlit("Empty");
        assert("Empty"@ =~= empty_label());
    }
    r.kids.len() == 1 && label_is(&r.kids[0], "Empty")
}

/// Whether the tree has the shape of a grammar.
pub fn is_grammar_tree(root: &Node) -> (r: bool)
    ensures
        r == tree_ok(*root),
{
    if root.kids.len() == 0 {
        return false;
    }
    let mut i: usize = 0;
    while i < root.kids.len()
        invariant
            i <= root.kids@.len(),
            forall|t: int| 0 <= t < i ==> production_node_ok(#[trigger] root.kids@[t]),
        decreases root.kids@.len() - i,
    {
        let pn = &root.kids[i];
        if pn.kids.len() < 2 || !is_nonterm_label(&pn.kids[0]) || pn.kids[0].kids.len() == 0
            || pn.kids[1].kids.len() == 0 {
            assert(!production_node_ok(root.kids@[i as int]));
            return false;
        }
        let rules = &pn.kids[1].kids;
        let mut j: usize = 0;
        while j < rules.len()
            invariant
                i < root.kids@.len(),
                *pn == root.kids@[i as int],
                pn.kids@.len() >= 2,
                j <= rules@.len(),
                rules@ == pn.kids@[1].kids@,
                forall|t: int| 0 <= t < j ==> rule_ok(#[trigger] rules@[t]),
            decreases rules@.len() - j,
        {
            let r = &rules[j];
            if !is_empty_rule(r) {
                let mut k: usize = 0;
                while k < r.kids.len()
                    invariant
                        i < root.kids@.len(),
                        *pn == root.kids@[i as int],
                        pn.kids@.len() >= 2,
                        rules@ == pn.kids@[1].kids@,
                        j < rules@.len(),
                        *r == rules@[j as int],
                        !empty_rule(*r),
                        k <= r.kids@.len(),
                        forall|t: int| 0 <= t < k ==> symbol_node_ok(#[trigger] r.kids@[t]),
                    decreases r.kids@.len() - k,
                {
                    let s = &r.kids[k];
                    if !(is_term_label(s) || is_nonterm_label(s)) || s.kids.len() == 0 {
                        proof {
                            assert(!symbol_node_ok(r.kids@[k as int]));
                            assert(!rule_ok(rules@[j as int]));
                            assert(!production_node_ok(root.kids@[i as int]));
                        }
                        return false;
                    }
                    k = k + 1;
                }
            }
            j = j + 1;
        }
        i = i + 1;
    }
    true
}

/// The id of the symbol of kind `is_term` and name `name`, added when not yet present.
fn intern(names: &mut Vec<String>, terminal: &mut Vec<bool>, is_term: bool, name: &String) -> (id: usize)
    requires
        old(names)@.len() == old(terminal)@.len() >= FIRST_USER,
        names_unique(old(names)@, old(terminal)@),
    ensures
        final(names)@.len() == final(terminal)@.len(),
        old(names)@.len() <= final(names)@.len() <= old(names)@.len() + 1,
        final(names)@.subrange(0, old(names)@.len() as int) == old(names)@,
        final(terminal)@.subrange(0, old(terminal)@.len() as int) == old(terminal)@,
        FIRST_USER <= id < final(names)@.len(),
        sym_named(final(names)@, final(terminal)@, id) == (is_term, name@),
        names_unique(final(names)@, final(terminal)@),
{
    let mut i: usize = FIRST_USER;
    while i < names.len()
        invariant
            names@ == old(names)@,
            terminal@ == old(terminal)@,
            names@.len() == terminal@.len(),
            names_unique(names@, terminal@),
            FIRST_USER <= i <= names@.len(),
            forall|t: usize| FIRST_USER <= t < i ==> #[trigger] sym_named(names@, terminal@, t) != (is_term, name@),
        decreases names@.len() - i,
    {
        if terminal[i] == is_term && names[i] == *name {
            proof {
                assert(names@.subrange(0, names@.len() as int) =~= names@);
                assert(terminal@.subrange(0, terminal@.len() as int) =~= terminal@);
            }
            return i;
        }
        i = i + 1;
    }
    let ghost n0 = names@;
    let ghost t0 = terminal@;
    let id = names.len();
    names.push(name.clone());
    terminal.push(is_term);
    proof {
        assert(names@.subrange(0, n0.len() as int) =~= n0);
        assert(terminal@.subrange(0, t0.len() as int) =~= t0);
        assert forall|a: usize, b: usize|
            FIRST_USER <= a < b < names@.len() implies #[trigger] sym_named(names@, terminal@, a) != #[trigger] sym_named(names@, terminal@, b) by {
            assert(sym_named(names@, terminal@, a) == sym_named(n0, t0, a));
            if b < n0.len() {
                assert(sym_named(names@, terminal@, b) == sym_named(n0, t0, b));
            }
        }
    }
    id
}

/// `(n2, t2)` keeps the symbols of `(n1, t1)` under the same ids.
pub open spec fn extends(n1: Seq<String>, t1: Seq<bool>, n2: Seq<String>, t2: Seq<bool>) -> bool {
    &&& n1.len() == t1.len()
    &&& n2.len() == t2.len()
    &&& n1.len() <= n2.len()
    &&& n2.subrange(0, n1.len() as int) == n1
    &&& t2.subrange(0, t1.len() as int) == t1
}

/// Every symbol id in `ps` lies below `n`.
pub open spec fn ids_below(ps: Seq<Production>, n: int) -> bool {
    forall|p: int| 0 <= p < ps.len() ==> (#[trigger] ps[p]).nt < n && forall|k: int|
        0 <= k < ps[p].symbols@.len() ==> #[trigger] ps[p].symbols@[k] < n
}

pub proof fn lemma_extends_trans(
    n1: Seq<String>,
    t1: Seq<bool>,
    n2: Seq<String>,
    t2: Seq<bool>,
    n3: Seq<String>,
    t3: Seq<bool>,
)
    requires
        extends(n1, t1, n2, t2),
        extends(n2, t2, n3, t3),
    ensures
        extends(n1, t1, n3, t3),
{
    assert(n3.subrange(0, n1.len() as int) =~= n2.subrange(0, n1.len() as int));
    assert(t3.subrange(0, t1.len() as int) =~= t2.subrange(0, t1.len() as int));
}

/// Naming symbols below the old length is unchanged by an extension.
pub proof fn lemma_sym_stable(n1: Seq<String>, t1: Seq<bool>, n2: Seq<String>, t2: Seq<bool>, x: usize)
    requires
        extends(n1, t1, n2, t2),
        x < n1.len(),
    ensures
        sym_named(n1, t1, x) == sym_named(n2, t2, x),
{
    assert(n2.subrange(0, n1.len() as int)[x as int] == n2[x as int]);
    assert(t2.subrange(0, t1.len() as int)[x as int] == t2[x as int]);
}

pub proof fn lemma_syms_stable(n1: Seq<String>, t1: Seq<bool>, n2: Seq<String>, t2: Seq<bool>, b: Seq<usize>)
    requires
        extends(n1, t1, n2, t2),
        forall|k: int| 0 <= k < b.len() ==> b[k] < n1.len(),
    ensures
        b.map_values(|x: usize| sym_named(n1, t1, x)) == b.map_values(|x: usize| sym_named(n2, t2, x)),
{
    assert forall|k: int| 0 <= k < b.len() implies sym_named(n1, t1, b[k]) == sym_named(n2, t2, b[k]) by {
        lemma_sym_stable(n1, t1, n2, t2, b[k]);
    }
    assert(b.map_values(|x: usize| sym_named(n1, t1, x)) =~= b.map_values(|x: usize| sym_named(n2, t2, x)));
}

pub proof fn lemma_prods_stable(n1: Seq<String>, t1: Seq<bool>, n2: Seq<String>, t2: Seq<bool>, ps: Seq<Production>)
    requires
        extends(n1, t1, n2, t2),
        ids_below(ps, n1.len() as int),
    ensures
        prods_named(n1, t1, ps) == prods_named(n2, t2, ps),
{
    assert forall|p: int| 0 <= p < ps.len() implies prod_named(n1, t1, ps[p]) == prod_named(n2, t2, ps[p]) by {
        lemma_sym_stable(n1, t1, n2, t2, ps[p].nt);
        lemma_syms_stable(n1, t1, n2, t2, ps[p].symbols@);
    }
    assert(prods_named(n1, t1, ps) =~= prods_named(n2, t2, ps));
}

/// The right-hand side of rule node `r`, interning its symbols.
fn rule_body(names: &mut Vec<String>, terminal: &mut Vec<bool>, r: &Node) -> (body: Vec<usize>)
    requires
        old(names)@.len() == old(terminal)@.len() >= FIRST_USER,
        names_unique(old(names)@, old(terminal)@),
        rule_ok(*r),
    ensures
        extends(old(names)@, old(terminal)@, final(names)@, final(terminal)@),
        names_unique(final(names)@, final(terminal)@),
        forall|k: int| 0 <= k < body@.len() ==> FIRST_USER <= #[trigger] body@[k] < final(names)@.len(),
        body@.map_values(|x: usize| sym_named(final(names)@, final(terminal)@, x)) == rule_symbols(*r),
{
    let mut body: Vec<usize> = Vec::new();
    proof {
        assert(names@.subrange(0, names@.len() as int) =~= names@);
        assert(terminal@.subrange(0, terminal@.len() as int) =~= terminal@);
    }
    if is_empty_rule(r) {
        assert(body@.map_values(|x: usize| sym_named(names@, terminal@, x)) =~= rule_symbols(*r));
        return body;
    }
    let mut k: usize = 0;
    while k < r.kids.len()
        invariant
            !empty_rule(*r),
            rule_ok(*r),
            k <= r.kids@.len(),
            names@.len() == terminal@.len() >= FIRST_USER,
            extends(old(names)@, old(terminal)@, names@, terminal@),
            names_unique(names@, terminal@),
            forall|t: int| 0 <= t < body@.len() ==> FIRST_USER <= #[trigger] body@[t] < names@.len(),
            body@.map_values(|x: usize| sym_named(names@, terminal@, x)) == r.kids@.subrange(0, k as int).map_values(
                |n: Node| node_symbol(n),
            ),
        decreases r.kids@.len() - k,
    {
        let s = &r.kids[k];
        assert(symbol_node_ok(r.kids@[k as int]));
        let is_term = is_term_label(s);
        let ghost n0 = names@;
        let ghost t0 = terminal@;
        let ghost b0 = body@;
        let x = intern(names, terminal, is_term, &s.kids[0].label);
        body.push(x);
        proof {
            assert(extends(n0, t0, names@, terminal@));
            lemma_extends_trans(old(names)@, old(terminal)@, n0, t0, names@, terminal@);
            lemma_syms_stable(n0, t0, names@, terminal@, b0);
            assert(body@.map_values(|x: usize| sym_named(names@, terminal@, x)) =~= b0.map_values(
                |x: usize| sym_named(names@, terminal@, x),
            ).push(sym_named(names@, terminal@, x)));
            assert(r.kids@.subrange(0, k + 1).map_values(|n: Node| node_symbol(n)) =~= r.kids@.subrange(
                0,
                k as int,
            ).map_values(|n: Node| node_symbol(n)).push(node_symbol(r.kids@[k as int])));
        }
        k = k + 1;
    }
    assert(r.kids@.subrange(0, r.kids@.len() as int) =~= r.kids@);
    body
}

/// Whether some production has left-hand side `x`.
fn has_production(prods: &Vec<Production>, x: usize) -> (r: bool)
    ensures
        r == exists|q: int| 0 <= q < prods@.len() && (#[trigger] prods@[q]).nt == x,
{
    let mut q: usize = 0;
    while q < prods.len()
        invariant
            q <= prods@.len(),
            forall|t: int| 0 <= t < q ==> (#[trigger] prods@[t]).nt != x,
        decreases prods@.len() - q,
    {
        if prods[q].nt == x {
            return true;
        }
        q = q + 1;
    }
    false
}

/// The item table: for each production `p` in order, the items `(p, 0)` to `(p, |rhs|)`.
fn item_table(prods: &Vec<Production>) -> (r: (Vec<Item>, Vec<usize>))
    ensures
        r.1@.len() == prods@.len(),
        r.0@.len() <= usize::MAX,
        forall|p: int, d: int|
            0 <= p < prods@.len() && 0 <= d <= prods@[p].symbols@.len() ==> {
                &&& #[trigger] (r.1@[p] + d) < r.0@.len()
                &&& r.0@[r.1@[p] + d] == Item { production: p as usize, dot: d as usize }
            },
        forall|i: int|
            0 <= i < r.0@.len() ==> {
                &&& (#[trigger] r.0@[i]).production < prods@.len()
                &&& r.0@[i].dot <= prods@[r.0@[i].production as int].symbols@.len()
                &&& r.1@[r.0@[i].production as int] + r.0@[i].dot == i
            },
{
    let mut items: Vec<Item> = Vec::new();
    let mut base: Vec<usize> = Vec::new();
    let mut p: usize = 0;
    while p < prods.len()
        invariant
            p <= prods@.len(),
            base@.len() == p,
            forall|q: int, d: int|
                0 <= q < p && 0 <= d <= prods@[q].symbols@.len() ==> {
                    &&& #[trigger] (base@[q] + d) < items@.len()
                    &&& items@[base@[q] + d] == Item { production: q as usize, dot: d as usize }
                },
            forall|i: int|
                0 <= i < items@.len() ==> {
                    &&& (#[trigger] items@[i]).production < p
                    &&& items@[i].dot <= prods@[items@[i].production as int].symbols@.len()
                    &&& base@[items@[i].production as int] + items@[i].dot == i
                },
        decreases prods@.len() - p,
    {
        let len = prods[p].symbols.len();
        let b = items.len();
        base.push(b);
        items.push(Item { production: p, dot: 0 });
        let mut d: usize = 0;
        while d < len
            invariant
                p < prods@.len(),
                len == prods@[p as int].symbols@.len(),
                base@.len() == p + 1,
                base@[p as int] == b,
                d <= len,
                items@.len() == b + d + 1,
                forall|q: int, e: int|
                    0 <= q < p && 0 <= e <= prods@[q].symbols@.len() ==> {
                        &&& #[trigger] (base@[q] + e) < items@.len()
                        &&& items@[base@[q] + e] == Item { production: q as usize, dot: e as usize }
                    },
                forall|e: int| 0 <= e <= d ==> #[trigger] items@[b + e] == (Item { production: p, dot: e as usize }),
                forall|i: int|
                    0 <= i < items@.len() ==> {
                        &&& (#[trigger] items@[i]).production < p + 1
                        &&& items@[i].dot <= prods@[items@[i].production as int].symbols@.len()
                        &&& base@[items@[i].production as int] + items@[i].dot == i
                    },
            decreases len - d,
        {
            items.push(Item { production: p, dot: d + 1 });
            d = d + 1;
        }
        p = p + 1;
        assert forall|q: int, e: int|
            0 <= q < p && 0 <= e <= prods@[q].symbols@.len() implies {
                &&& #[trigger] (base@[q] + e) < items@.len()
                &&& items@[base@[q] + e] == Item { production: q as usize, dot: e as usize }
            } by {
            if q == p - 1 {
                assert(items@[b + e] == Item { production: q as usize, dot: e as usize });
            }
        }
    }
    let _ = items.len();
    (items, base)
}

/// A nonterminal used in a right-hand side (other than the root production's) that has
/// no production, if any.
fn find_undefined(prods: &Vec<Production>, terminal: &Vec<bool>) -> (r: Option<usize>)
    requires
        ids_below(prods@, terminal@.len() as int),
    ensures
        match r {
            Some(x) => {
                &&& x < terminal@.len()
                &&& !terminal@[x as int]
                &&& exists|p: int, k: int|
                    1 <= p < prods@.len() && 0 <= k < prods@[p].symbols@.len() && #[trigger] prods@[p].symbols@[k] == x
                &&& forall|q: int| 0 <= q < prods@.len() ==> (#[trigger] prods@[q]).nt != x
            },
            None => forall|p: int, k: int|
                1 <= p < prods@.len() && 0 <= k < prods@[p].symbols@.len() && !terminal@[#[trigger] prods@[p].symbols@[k] as int]
                    ==> exists|q: int| 0 <= q < prods@.len() && (#[trigger] prods@[q]).nt == prods@[p].symbols@[k],
        },
{
    let mut p: usize = 1;
    while p < prods.len()
        invariant
            ids_below(prods@, terminal@.len() as int),
            1 <= p,
            forall|a: int, k: int|
                1 <= a < p && 0 <= a < prods@.len() && 0 <= k < prods@[a].symbols@.len() && !terminal@[#[trigger] prods@[a].symbols@[k] as int]
                    ==> exists|q: int| 0 <= q < prods@.len() && (#[trigger] prods@[q]).nt == prods@[a].symbols@[k],
        decreases prods@.len() - p,
    {
        let syms = &prods[p].symbols;
        let mut k: usize = 0;
        while k < syms.len()
            invariant
                ids_below(prods@, terminal@.len() as int),
                1 <= p < prods@.len(),
                syms@ == prods@[p as int].symbols@,
                k <= syms@.len(),
                forall|a: int, t: int|
                    1 <= a < p && 0 <= t < prods@[a].symbols@.len() && !terminal@[#[trigger] prods@[a].symbols@[t] as int]
                        ==> exists|q: int| 0 <= q < prods@.len() && (#[trigger] prods@[q]).nt == prods@[a].symbols@[t],
                forall|t: int|
                    0 <= t < k && !terminal@[#[trigger] syms@[t] as int]
                        ==> exists|q: int| 0 <= q < prods@.len() && (#[trigger] prods@[q]).nt == syms@[t],
            decreases syms@.len() - k,
        {
            let x = syms[k];
            assert(prods@[p as int].symbols@[k as int] == x);
            if !terminal[x] && !has_production(prods, x) {
                return Some(x);
            }
            k = k + 1;
        }
        p = p + 1;
    }
    None
}

/// FIRST of a sequence depends on the grammar's symbols alone.
proof fn lemma_first_from_same(g1: Grammar, g2: Grammar, f: Seq<Set<usize>>, s: Seq<usize>, i: int)
    requires
        g1.terminal@ == g2.terminal@,
        g1.names@.len() == g2.names@.len(),
    ensures
        g1.first_from(f, s, i) == g2.first_from(f, s, i),
    decreases s.len() - i,
{
    if 0 <= i < s.len() {
        lemma_first_from_same(g1, g2, f, s, i + 1);
    }
}

/// The FIRST and FOLLOW rules of two grammars with the same symbols and productions agree.
proof fn lemma_same_rules(g1: Grammar, g2: Grammar)
    requires
        g1.terminal@ == g2.terminal@,
        g1.names@ == g2.names@,
        g1.productions@ == g2.productions@,
    ensures
        forall|f: Seq<Set<usize>>| #[trigger] g1.first_closed(f) == g2.first_closed(f),
        forall|f: Seq<Set<usize>>, fo: Seq<Set<usize>>| #[trigger] g1.follow_closed(f, fo) == g2.follow_closed(f, fo),
{
    assert forall|f: Seq<Set<usize>>| #[trigger] g1.first_closed(f) == g2.first_closed(f) by {
        assert forall|p: int| 0 <= p < g1.productions@.len() implies #[trigger] g1.first_from(f, g1.rhs(p), 0) == g2.first_from(f, g2.rhs(p), 0) by {
            lemma_first_from_same(g1, g2, f, g1.rhs(p), 0);
            assert(g1.rhs(p) == g2.rhs(p));
        }
        if g1.first_closed(f) {
            assert forall|p: int| 0 <= p < g2.productions@.len() implies #[trigger] g2.first_from(f, g2.rhs(p), 0).subset_of(f[g2.lhs(p) as int]) by {
                assert(g1.first_from(f, g1.rhs(p), 0).subset_of(f[g1.lhs(p) as int]));
            }
        }
        if g2.first_closed(f) {
            assert forall|p: int| 0 <= p < g1.productions@.len() implies #[trigger] g1.first_from(f, g1.rhs(p), 0).subset_of(f[g1.lhs(p) as int]) by {
                assert(g2.first_from(f, g2.rhs(p), 0).subset_of(f[g2.lhs(p) as int]));
            }
        }
    }
    assert forall|f: Seq<Set<usize>>, fo: Seq<Set<usize>>| #[trigger] g1.follow_closed(f, fo) == g2.follow_closed(f, fo) by {
        assert forall|p: int, k: int| 0 <= p < g1.productions@.len() && 0 <= k < g1.rhs(p).len() implies #[trigger] g1.follow_rule(f, fo, p, k) == g2.follow_rule(f, fo, p, k) by {
            lemma_first_from_same(g1, g2, f, g1.rhs(p), k + 1);
            assert(g1.rhs(p) == g2.rhs(p));
        }
        if g1.follow_closed(f, fo) {
            assert forall|p: int, k: int| 0 <= p < g2.productions@.len() && 0 <= k < g2.rhs(p).len() implies #[trigger] g2.follow_rule(f, fo, p, k) by {
                assert(g1.follow_rule(f, fo, p, k));
            }
        }
        if g2.follow_closed(f, fo) {
            assert forall|p: int, k: int| 0 <= p < g1.productions@.len() && 0 <= k < g1.rhs(p).len() implies #[trigger] g1.follow_rule(f, fo, p, k) by {
                assert(g2.follow_rule(f, fo, p, k));
            }
        }
    }
}

impl Grammar {
    /// The grammar is indexed consistently, its names are unique, and its FIRST and FOLLOW
    /// tables are the least solutions of their rules.
    pub open spec fn wf(&self) -> bool {
        &&& self.shape_wf()
        &&& names_unique(self.names@, self.terminal@)
        &&& self.first@.len() == self.num_symbols()
        &&& table_wf(self.first@, self.num_symbols())
        &&& self.first_least(views(self.first@))
        &&& self.follow@.len() == self.num_symbols()
        &&& table_wf(self.follow@, self.num_symbols())
        &&& self.follow_least(views(self.first@), views(self.follow@))
    }

    /// Builds the grammar of a parse tree: the first production's left-hand side is the
    /// start symbol, and the rules keep the order of the tree. The tree must have the
    /// expected shape, and every nonterminal used must have a production.
    pub fn new(root: Node) -> (r: Result<Grammar, GrammarError>)
        ensures
            match r {
                Ok(g) => {
                    &&& tree_ok(root)
                    &&& g.wf()
                    &&& g.named_rules() == tree_rules(root)
                    &&& g.names@[g.start as int]@ == lhs_name(root.kids@[0])
                    &&& forall|name: Seq<char>| !undefined_in(tree_rules(root), name)
                },
                Err(GrammarError::MalformedGrammar) => !tree_ok(root),
                Err(GrammarError::UndefinedNonterminal(name)) => tree_ok(root) && undefined_in(
                    tree_rules(root),
                    name@,
                ),
            },
    {
        if !is_grammar_tree(&root) {
            return Err(GrammarError::MalformedGrammar);
        }
        let ghost tr = tree_rules(root);
        let mut names: Vec<String> = Vec::new();
        let mut terminal: Vec<bool> = Vec::new();
        names.push(String::new());
        terminal.push(false);
        names.push("$".to_owned());
        terminal.push(true);
        names.push("<start>".to_owned());
        terminal.push(false);
        let ghost n_init = names@;
        let ghost t_init = terminal@;
        let start = intern(&mut names, &mut terminal, false, &root.kids[0].kids[0].kids[0].label);
        let ghost start_name = lhs_name(root.kids@[0]);
        let mut prods: Vec<Production> = Vec::new();
        let mut first_rhs: Vec<usize> = Vec::new();
        first_rhs.push(start);
        prods.push(Production { nt: ROOT, symbols: first_rhs });
        proof {
            assert(extends(n_init, t_init, names@, terminal@));
            lemma_sym_stable(n_init, t_init, names@, terminal@, EPSILON);
            lemma_sym_stable(n_init, t_init, names@, terminal@, END);
            lemma_sym_stable(n_init, t_init, names@, terminal@, ROOT);
            assert(prods@.drop_first() =~= Seq::<Production>::empty());
            assert(root.kids@.subrange(0, 0).map_values(|pn: Node| node_rules(pn)) =~= Seq::<Seq<(Seq<char>, Seq<(bool, Seq<char>)>)>>::empty());
            assert(prods_named(names@, terminal@, prods@.drop_first()) =~= root.kids@.subrange(0, 0).map_values(|pn: Node| node_rules(pn)).flatten());
        }
        let mut i: usize = 0;
        while i < root.kids.len()
            invariant
                tree_ok(root),
                tr == tree_rules(root),
                i <= root.kids@.len(),
                names@.len() == terminal@.len() > FIRST_USER,
                extends(n_init, t_init, names@, terminal@),
                !terminal@[EPSILON as int],
                terminal@[END as int],
                !terminal@[ROOT as int],
                names_unique(names@, terminal@),
                FIRST_USER <= start < names@.len(),
                sym_named(names@, terminal@, start) == (false, start_name),
                prods@.len() >= 1,
                prods@[0].nt == ROOT,
                prods@[0].symbols@ == seq![start],
                forall|p: int| 1 <= p < prods@.len() ==> FIRST_USER <= (#[trigger] prods@[p]).nt && !terminal@[prods@[p].nt as int],
                ids_below(prods@, names@.len() as int),
                forall|p: int, k: int| 0 <= p < prods@.len() && 0 <= k < prods@[p].symbols@.len() ==> FIRST_USER <= #[trigger] prods@[p].symbols@[k],
                prods_named(names@, terminal@, prods@.drop_first()) == root.kids@.subrange(0, i as int).map_values(|pn: Node| node_rules(pn)).flatten(),
            decreases root.kids@.len() - i,
        {
            let pn = &root.kids[i];
            assert(production_node_ok(root.kids@[i as int]));
            let ghost n0 = names@;
            let ghost t0 = terminal@;
            let nt = intern(&mut names, &mut terminal, false, &pn.kids[0].kids[0].label);
            let ghost flat = root.kids@.subrange(0, i as int).map_values(|pn: Node| node_rules(pn)).flatten();
            proof {
                lemma_extends_trans(n_init, t_init, n0, t0, names@, terminal@);
                lemma_prods_stable(n0, t0, names@, terminal@, prods@.drop_first());
                lemma_sym_stable(n0, t0, names@, terminal@, start);
                lemma_sym_stable(n0, t0, names@, terminal@, EPSILON);
                lemma_sym_stable(n0, t0, names@, terminal@, END);
                lemma_sym_stable(n0, t0, names@, terminal@, ROOT);
                assert(pn.kids@[1].kids@.subrange(0, 0).map_values(|r: Node| (lhs_name(*pn), rule_symbols(r))) =~= Seq::<(Seq<char>, Seq<(bool, Seq<char>)>)>::empty());
                assert(node_rules(*pn).subrange(0, 0) =~= Seq::<(Seq<char>, Seq<(bool, Seq<char>)>)>::empty());
                assert(prods_named(names@, terminal@, prods@.drop_first()) =~= flat + node_rules(*pn).subrange(0, 0));
            }
            let rules = &pn.kids[1].kids;
            let mut j: usize = 0;
            while j < rules.len()
                invariant
                    tree_ok(root),
                    i < root.kids@.len(),
                    *pn == root.kids@[i as int],
                    production_node_ok(*pn),
                    rules@ == pn.kids@[1].kids@,
                    j <= rules@.len(),
                    names@.len() == terminal@.len() > FIRST_USER,
                    extends(n_init, t_init, names@, terminal@),
                    !terminal@[EPSILON as int],
                    terminal@[END as int],
                    !terminal@[ROOT as int],
                    names_unique(names@, terminal@),
                    FIRST_USER <= start < names@.len(),
                    sym_named(names@, terminal@, start) == (false, start_name),
                    FIRST_USER <= nt < names@.len(),
                    sym_named(names@, terminal@, nt) == (false, lhs_name(*pn)),
                    prods@.len() >= 1,
                    prods@[0].nt == ROOT,
                    prods@[0].symbols@ == seq![start],
                    forall|p: int| 1 <= p < prods@.len() ==> FIRST_USER <= (#[trigger] prods@[p]).nt && !terminal@[prods@[p].nt as int],
                    ids_below(prods@, names@.len() as int),
                    forall|p: int, k: int| 0 <= p < prods@.len() && 0 <= k < prods@[p].symbols@.len() ==> FIRST_USER <= #[trigger] prods@[p].symbols@[k],
                    prods_named(names@, terminal@, prods@.drop_first()) == flat + node_rules(*pn).subrange(0, j as int),
                decreases rules@.len() - j,
            {
                let ghost n1 = names@;
                let ghost t1 = terminal@;
                let ghost ps1 = prods@;
                assert(rule_ok(rules@[j as int]));
                let body = rule_body(&mut names, &mut terminal, &rules[j]);
                prods.push(Production { nt, symbols: body });
                proof {
                    lemma_extends_trans(n_init, t_init, n1, t1, names@, terminal@);
                    lemma_prods_stable(n1, t1, names@, terminal@, ps1.drop_first());
                    lemma_sym_stable(n1, t1, names@, terminal@, start);
                    lemma_sym_stable(n1, t1, names@, terminal@, nt);
                    lemma_sym_stable(n1, t1, names@, terminal@, EPSILON);
                    lemma_sym_stable(n1, t1, names@, terminal@, END);
                    lemma_sym_stable(n1, t1, names@, terminal@, ROOT);
                    assert(prods@.drop_first() =~= ps1.drop_first().push(prods@[prods@.len() - 1]));
                    assert(prods_named(names@, terminal@, prods@.drop_first()) =~= prods_named(names@, terminal@, ps1.drop_first()).push(
                        prod_named(names@, terminal@, prods@[prods@.len() - 1]),
                    ));
                    assert(node_rules(*pn)[j as int] == (lhs_name(*pn), rule_symbols(rules@[j as int])));
                    assert(node_rules(*pn).subrange(0, j + 1) =~= node_rules(*pn).subrange(0, j as int).push(node_rules(*pn)[j as int]));
                    assert(prods_named(names@, terminal@, prods@.drop_first()) =~= flat + node_rules(*pn).subrange(0, j + 1));
                    assert forall|p: int| 0 <= p < prods@.len() implies (#[trigger] prods@[p]).nt < names@.len() && forall|k: int|
                        0 <= k < prods@[p].symbols@.len() ==> #[trigger] prods@[p].symbols@[k] < names@.len() by {
                        if p < ps1.len() {
                            assert(prods@[p] == ps1[p]);
                        }
                    }
                    assert forall|p: int, k: int| 0 <= p < prods@.len() && 0 <= k < prods@[p].symbols@.len() implies FIRST_USER <= #[trigger] prods@[p].symbols@[k] by {
                        if p < ps1.len() {
                            assert(prods@[p] == ps1[p]);
                        }
                    }
                    assert forall|p: int| 1 <= p < prods@.len() implies FIRST_USER <= (#[trigger] prods@[p]).nt && !terminal@[prods@[p].nt as int] by {
                        if p < ps1.len() {
                            assert(prods@[p] == ps1[p]);
                            lemma_sym_stable(n1, t1, names@, terminal@, ps1[p].nt);
                        }
                    }
                }
                j = j + 1;
            }
            proof {
                assert(node_rules(*pn).subrange(0, rules@.len() as int) =~= node_rules(*pn));
                let m = root.kids@.subrange(0, i + 1).map_values(|pn: Node| node_rules(pn));
                assert(m =~= root.kids@.subrange(0, i as int).map_values(|pn: Node| node_rules(pn)).push(node_rules(*pn)));
                root.kids@.subrange(0, i as int).map_values(|pn: Node| node_rules(pn)).lemma_flatten_push(node_rules(*pn));
            }
            i = i + 1;
        }
        proof {
            assert(root.kids@.subrange(0, root.kids@.len() as int) =~= root.kids@);
        }
        let ghost ps = prods@.drop_first();
        match find_undefined(&prods, &terminal) {
            Some(x) => {
                proof {
                    let (p, k) = choose|p: int, k: int|
                        1 <= p < prods@.len() && 0 <= k < prods@[p].symbols@.len() && #[trigger] prods@[p].symbols@[k] == x;
                    assert(tr[p - 1] == prod_named(names@, terminal@, ps[p - 1]));
                    assert(ps[p - 1] == prods@[p]);
                    assert(tr[p - 1].1[k] == (false, names@[x as int]@));
                    assert forall|q: int| 0 <= q < tr.len() implies (#[trigger] tr[q]).0 != names@[x as int]@ by {
                        assert(ps[q] == prods@[q + 1]);
                        let y = prods@[q + 1].nt;
                        assert(tr[q].0 == names@[y as int]@);
                        if names@[y as int]@ == names@[x as int]@ {
                            assert(sym_named(names@, terminal@, y) == sym_named(names@, terminal@, x));
                            assert(FIRST_USER <= y);
                            assert(FIRST_USER <= x);
                            if y < x {
                                assert(sym_named(names@, terminal@, y) != sym_named(names@, terminal@, x));
                            } else if x < y {
                                assert(sym_named(names@, terminal@, x) != sym_named(names@, terminal@, y));
                            }
                        }
                    }
                }
                return Err(GrammarError::UndefinedNonterminal(names[x].clone()));
            },
            None => {},
        }
        proof {
            assert forall|name: Seq<char>| !undefined_in(tr, name) by {
                if undefined_in(tr, name) {
                    let (k, j) = choose|k: int, j: int|
                        0 <= k < tr.len() && 0 <= j < tr[k].1.len() && #[trigger] tr[k].1[j] == (false, name);
                    assert(ps[k] == prods@[k + 1]);
                    assert(tr[k] == prod_named(names@, terminal@, ps[k]));
                    let x = prods@[k + 1].symbols@[j];
                    assert(tr[k].1[j] == sym_named(names@, terminal@, x));
                    assert(!terminal@[x as int]);
                    let q = choose|q: int| 0 <= q < prods@.len() && (#[trigger] prods@[q]).nt == x;
                    assert(FIRST_USER <= x);
                    assert(q != 0);
                    assert(ps[q - 1] == prods@[q]);
                    assert(tr[q - 1].0 == name);
                }
            }
        }
        let (items, item_base) = item_table(&prods);
        let mut g = Grammar {
            start,
            names,
            terminal,
            productions: prods,
            items,
            item_base,
            first: Vec::new(),
            follow: Vec::new(),
        };
        proof {
            assert(g.shape_wf());
        }
        let first = g.compute_first();
        let follow = g.compute_follow(&first);
        let ghost g0 = g;
        g.first = first;
        g.follow = follow;
        proof {
            lemma_same_rules(g0, g);
            assert(g.first_closed(views(g.first@)));
            assert forall|h: Seq<Set<usize>>| #[trigger] g.first_closed(h) implies forall|a: int|
                0 <= a < g.num_symbols() ==> (#[trigger] views(g.first@)[a]).subset_of(h[a]) by {
                assert(g0.first_closed(h));
            }
            assert(g.first_least(views(g.first@)));
            assert(g.follow_closed(views(g.first@), views(g.follow@)));
            assert forall|h: Seq<Set<usize>>| #[trigger] g.follow_closed(views(g.first@), h) implies forall|a: int|
                0 <= a < g.num_symbols() ==> (#[trigger] views(g.follow@)[a]).subset_of(h[a]) by {
                assert(g0.follow_closed(views(g.first@), h));
            }
            assert(g.follow_least(views(g.first@), views(g.follow@)));
            assert(g.shape_wf());
            assert(g.named_rules() == tree_rules(root));
        }
        Ok(g)
    }
}

impl Grammar {
    /// FIRST of symbol `x` in this grammar.
    pub open spec fn first_set(&self, x: usize) -> Set<usize> {
        self.first_sym(views(self.first@), x)
    }

    /// FIRST of the sequence `s` in this grammar.
    pub open spec fn first_seq(&self, s: Seq<usize>) -> Set<usize> {
        self.first_from(views(self.first@), s, 0)
    }

    /// FOLLOW of symbol `x` in this grammar.
    pub open spec fn follow_set(&self, x: usize) -> Set<usize> {
        views(self.follow@)[x as int]
    }

    /// FIRST of a symbol: itself for a terminal, {ε} for ε, and for a nonterminal the
    /// terminals that can begin a string it derives, with ε when it derives the empty string.
    #[allow(non_snake_case)]
    pub fn FIRST(&self, sym: usize) -> (r: SortedSet)
        requires
            self.wf(),
            sym < self.num_symbols(),
        ensures
            r.wf(),
            r@ == self.first_set(sym),
    {
        self.first_sym_exec(&self.first, sym)
    }

    /// FIRST of a sequence of symbols: the FIRST sets of its symbols from the left without
    /// ε, as long as the symbols before can derive ε; with ε when all of them can.
    #[allow(non_snake_case)]
    pub fn FIRST_vec(&self, syms: &Vec<usize>) -> (r: SortedSet)
        requires
            self.wf(),
            forall|k: int| 0 <= k < syms@.len() ==> syms@[k] < self.num_symbols(),
        ensures
            r.wf(),
            r@ == self.first_seq(syms@),
    {
        self.first_of(&self.first, syms, 0)
    }

    /// FOLLOW of a nonterminal: the terminals that can come right after it in a sentential
    /// form, with the end marker where it can end one.
    #[allow(non_snake_case)]
    pub fn FOLLOW(&self, nt: usize) -> (r: SortedSet)
        requires
            self.wf(),
            nt < self.num_symbols(),
        ensures
            r.wf(),
            r@ == self.follow_set(nt),
    {
        self.follow[nt].duplicate()
    }
}

/// FIRST of a sequence from a table whose entries hold only terminals and ε holds only
/// terminals and ε.
proof fn lemma_first_from_terminals(g: &Grammar, h: Seq<Set<usize>>, s: Seq<usize>, i: int)
    requires
        g.symbols_wf(),
        h.len() == g.num_symbols(),
        forall|b: int, x: usize| 0 <= b < h.len() && #[trigger] h[b].contains(x) ==> x == EPSILON || g.is_term(x),
        forall|k: int| 0 <= k < s.len() ==> s[k] < g.num_symbols(),
    ensures
        forall|x: usize| #[trigger] g.first_from(h, s, i).contains(x) ==> x == EPSILON || g.is_term(x),
    decreases s.len() - i,
{
    if 0 <= i < s.len() {
        lemma_first_from_terminals(g, h, s, i + 1);
        let fx = g.first_sym(h, s[i]);
        assert forall|x: usize| #[trigger] fx.contains(x) implies x == EPSILON || g.is_term(x) by {
            if s[i] != EPSILON && !g.is_term(s[i]) {
                assert(h[s[i] as int].contains(x));
            }
        }
        assert forall|x: usize| #[trigger] g.first_from(h, s, i).contains(x) implies x == EPSILON || g.is_term(x) by {
            if fx.contains(EPSILON) && !fx.contains(x) {
                assert(g.first_from(h, s, i + 1).contains(x));
            }
        }
    } else {
        assert forall|x: usize| #[trigger] g.first_from(h, s, i).contains(x) implies x == EPSILON || g.is_term(x) by {
            assert(g.first_from(h, s, i) == set![EPSILON]);
        }
    }
}

impl Grammar {
    /// FIRST of the right-hand side of every production lies in FIRST of its left-hand side.
    pub proof fn lemma_first_sound(&self, p: int)
        requires
            self.wf(),
            0 <= p < self.productions@.len(),
        ensures
            self.first_seq(self.rhs(p)).subset_of(self.first_set(self.lhs(p))),
    {
        self.lemma_rhs_bounded(p);
        if p > 0 {
            assert(self.is_nonterm(self.lhs(p)));
        }
        assert(self.first_set(self.lhs(p)) == views(self.first@)[self.lhs(p) as int]);
    }

    /// FIRST sets hold only terminals and ε.
    pub proof fn lemma_first_terminals(&self)
        requires
            self.wf(),
        ensures
            forall|b: int, x: usize|
                0 <= b < self.num_symbols() && #[trigger] views(self.first@)[b].contains(x) ==> x == EPSILON || self.is_term(x),
    {
        let n = self.num_symbols();
        let eu = Set::new(|x: usize| x == EPSILON || self.is_term(x));
        let t1 = Seq::new(n as nat, |b: int| eu);
        assert forall|p: int| 0 <= p < self.productions@.len() implies #[trigger] self.first_from(t1, self.rhs(p), 0).subset_of(
            t1[self.lhs(p) as int],
        ) by {
            self.lemma_rhs_bounded(p);
            assert forall|k: int| 0 <= k < self.rhs(p).len() implies self.rhs(p)[k] < n by {
                assert(self.productions@[p].symbols@[k] < n);
            }
            lemma_first_from_terminals(self, t1, self.rhs(p), 0);
        }
        assert(self.first_closed(t1));
        assert forall|b: int, x: usize|
            0 <= b < n && #[trigger] views(self.first@)[b].contains(x) implies x == EPSILON || self.is_term(x) by {
            assert(views(self.first@)[b].subset_of(t1[b]));
        }
    }

    /// FOLLOW sets hold terminals only (the end marker among them): never ε, never a
    /// nonterminal.
    pub proof fn lemma_follow_terminals(&self, a: usize, y: usize)
        requires
            self.wf(),
            a < self.num_symbols(),
            self.follow_set(a).contains(y),
        ensures
            self.is_term(y),
    {
        let n = self.num_symbols();
        let f = views(self.first@);
        self.lemma_first_terminals();
        let u = Set::new(|x: usize| self.is_term(x));
        let t2 = Seq::new(n as nat, |b: int| u);
        assert forall|p: int, k: int|
            0 <= p < self.productions@.len() && 0 <= k < self.rhs(p).len() implies #[trigger] self.follow_rule(f, t2, p, k) by {
            self.lemma_rhs_bounded(p);
            assert forall|j: int| 0 <= j < self.rhs(p).len() implies self.rhs(p)[j] < n by {
                assert(self.productions@[p].symbols@[j] < n);
            }
            lemma_first_from_terminals(self, f, self.rhs(p), k + 1);
            assert(self.productions@[p].symbols@[k] < n);
        }
        assert(self.terminal@[END as int]);
        assert(self.follow_closed(f, t2));
        assert(views(self.follow@)[a as int].subset_of(t2[a as int]));
    }
}

impl Grammar {
    /// The id of the symbol of the grammar text with kind `is_term` and name `name`.
    pub fn find_symbol(&self, is_term: bool, name: &String) -> (r: Option<usize>)
        requires
            self.wf(),
        ensures
            match r {
                Some(x) => FIRST_USER <= x < self.num_symbols() && sym_named(self.names@, self.terminal@, x) == (is_term, name@),
                None => forall|x: usize|
                    FIRST_USER <= x < self.num_symbols() ==> #[trigger] sym_named(self.names@, self.terminal@, x) != (is_term, name@),
            },
    {
        let mut i: usize = FIRST_USER;
        while i < self.names.len()
            invariant
                self.wf(),
                FIRST_USER <= i <= self.num_symbols(),
                forall|t: usize| FIRST_USER <= t < i ==> #[trigger] sym_named(self.names@, self.terminal@, t) != (is_term, name@),
            decreases self.num_symbols() - i,
        {
            if self.terminal[i] == is_term && self.names[i] == *name {
                return Some(i);
            }
            i = i + 1;
        }
        None
    }

    /// The name of symbol `x`.
    pub fn name(&self, x: usize) -> (r: String)
        requires
            self.wf(),
            x < self.num_symbols(),
        ensures
            r@ == self.names@[x as int]@,
    {
        self.names[x].clone()
    }

    /// Symbol `x` by kind and name.
    pub fn symbol(&self, x: usize) -> (r: Symbol)
        requires
            self.wf(),
            x < self.num_symbols(),
        ensures
            match r {
                Symbol::Term(n) => x != EPSILON && self.terminal@[x as int] && n@ == self.names@[x as int]@,
                Symbol::NonTerm(n) => x != EPSILON && !self.terminal@[x as int] && n@ == self.names@[x as int]@,
                Symbol::EmptyString => x == EPSILON,
            },
    {
        if x == EPSILON {
            Symbol::EmptyString
        } else if self.terminal[x] {
            Symbol::Term(self.names[x].clone())
        } else {
            Symbol::NonTerm(self.names[x].clone())
        }
    }
}

} // verus!
