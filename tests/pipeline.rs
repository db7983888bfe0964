use slr::automaton::SLRAutomaton;
use slr::grammar::{Grammar, GrammarError, Node, Symbol, END, EPSILON};
use slr::sorted_set::SortedSet;
use slr::table::{LRAction, SLRTable, TableConflict};

fn sym(kind: &str, name: &str) -> Node {
    Node::new(kind).addkid(Node::new(name))
}

/// A grammar tree from `(lhs, alternatives)`; a name in `terms` is a terminal, an empty
/// alternative is the ε rule.
fn tree(terms: &[&str], prods: &[(&str, &[&[&str]])]) -> Node {
    let mut root = Node::new("Grammar");
    for (lhs, alts) in prods {
        let mut body = Node::new("Body");
        for alt in alts.iter() {
            let mut rule = Node::new("Rule");
            if alt.is_empty() {
                rule = rule.addkid(sym("Empty", "e"));
            }
            for s in alt.iter() {
                let kind = if terms.contains(s) { "Term" } else { "NonTerm" };
                rule = rule.addkid(sym(kind, s));
            }
            body = body.addkid(rule);
        }
        let p = Node::new("Production").addkid(sym("NonTerm", lhs)).addkid(body);
        root = root.addkid(p);
    }
    root
}

fn build(terms: &[&str], prods: &[(&str, &[&[&str]])]) -> Grammar {
    match Grammar::new(tree(terms, prods)) {
        Ok(g) => g,
        Err(e) => panic!("grammar refused: {:?}", e),
    }
}

fn id(g: &Grammar, term: bool, name: &str) -> usize {
    g.find_symbol(term, &name.to_string()).expect("symbol")
}

fn t(g: &Grammar, name: &str) -> usize {
    id(g, true, name)
}

fn n(g: &Grammar, name: &str) -> usize {
    id(g, false, name)
}

fn elems(s: &SortedSet) -> Vec<usize> {
    s.iter().to_vec()
}

fn sorted(mut v: Vec<usize>) -> Vec<usize> {
    v.sort();
    v
}

/// The index of production `lhs -> rhs`.
fn prod(g: &Grammar, lhs: usize, rhs: &[usize]) -> usize {
    (0..g.productions.len())
        .find(|&p| g.productions[p].nt == lhs && g.productions[p].symbols == rhs)
        .expect("production")
}

fn item(g: &Grammar, p: usize, dot: usize) -> usize {
    g.item_base[p] + dot
}

fn target(a: &SLRAutomaton, s: usize, x: usize) -> Option<usize> {
    a.states[s].moves.iter().find(|m| m.0 == x).map(|m| m.1)
}

fn table_of(a: &SLRAutomaton) -> SLRTable {
    match a.table() {
        Ok(tb) => tb,
        Err(c) => panic!("conflict: {:?}", c),
    }
}

fn expr_grammar() -> Grammar {
    build(
        &["PLUS", "ID"],
        &[("E", &[&["E", "PLUS", "T"], &["T"]]), ("T", &[&["ID"]])],
    )
}

#[test]
fn sorted_set_keeps_order_and_ignores_duplicates() {
    let mut s = SortedSet::new();
    for x in [5usize, 1, 9, 5, 3, 1] {
        s.add(x);
    }
    assert_eq!(elems(&s), vec![1, 3, 5, 9]);
    assert_eq!(s.len(), 4);
    assert!(s.contains(9));
    assert!(!s.contains(4));
    assert!(!s.is_empty());
    assert!(SortedSet::new().is_empty());
}

#[test]
fn sorted_set_union_difference_equality() {
    let mut a = SortedSet::singleton(4);
    a.add(2);
    let mut b = SortedSet::singleton(7);
    b.add(2);
    a.addall(b.duplicate());
    assert_eq!(elems(&a), vec![2, 4, 7]);
    let d = a.minus(&b);
    assert_eq!(elems(&d), vec![4]);
    let mut c = SortedSet::new();
    for x in [7usize, 4, 2] {
        c.add(x);
    }
    assert!(a == c);
    assert!(a != b);
    assert_eq!(a.into_iter(), vec![2, 4, 7]);
}

#[test]
fn node_children_order() {
    let n = Node::new("Body").addkid(Node::new("b")).enquekid(Node::new("a"));
    assert_eq!(n.label, "Body");
    assert_eq!(n.kids.len(), 2);
    assert_eq!(n.kids[0].label, "a");
    assert_eq!(n.kids[1].label, "b");
}

#[test]
fn production_index_of() {
    let g = expr_grammar();
    let (e, plus, tt) = (n(&g, "E"), t(&g, "PLUS"), n(&g, "T"));
    let p = prod(&g, e, &[e, plus, tt]);
    assert_eq!(g.productions[p].index_of(plus), Some(1));
    assert_eq!(g.productions[p].index_of(tt), Some(2));
    assert_eq!(g.productions[p].index_of(t(&g, "ID")), None);
}

#[test]
fn grammar_keeps_rules_in_order() {
    let g = expr_grammar();
    let (e, plus, tt, idt) = (n(&g, "E"), t(&g, "PLUS"), n(&g, "T"), t(&g, "ID"));
    assert_eq!(g.start, e);
    assert_eq!(g.productions.len(), 4);
    assert_eq!(g.productions[1].nt, e);
    assert_eq!(g.productions[1].symbols, vec![e, plus, tt]);
    assert_eq!(g.productions[2].symbols, vec![tt]);
    assert_eq!(g.productions[3].nt, tt);
    assert_eq!(g.productions[3].symbols, vec![idt]);
    assert_eq!(g.name(plus), "PLUS");
    assert_eq!(g.symbol(idt), Symbol::Term("ID".to_string()));
    assert_eq!(g.symbol(e), Symbol::NonTerm("E".to_string()));
    assert_eq!(g.symbol(EPSILON), Symbol::EmptyString);
}

#[test]
fn grammar_merges_alternatives_of_one_lhs() {
    let g = build(&["X", "Y"], &[("S", &[&["X"]]), ("S", &[&["Y"]])]);
    let s = n(&g, "S");
    assert_eq!(g.productions.len(), 3);
    assert_eq!(g.productions[1].nt, s);
    assert_eq!(g.productions[2].nt, s);
    assert_eq!(g.productions[1].symbols, vec![t(&g, "X")]);
    assert_eq!(g.productions[2].symbols, vec![t(&g, "Y")]);
}

#[test]
fn malformed_label_is_refused() {
    let rule = Node::new("Rule").addkid(sym("Weird", "X"));
    let root = Node::new("Grammar")
        .addkid(Node::new("Production").addkid(sym("NonTerm", "S")).addkid(Node::new("Body").addkid(rule)));
    assert_eq!(Grammar::new(root).err(), Some(GrammarError::MalformedGrammar));
}

#[test]
fn empty_tree_is_refused() {
    assert_eq!(Grammar::new(Node::new("Grammar")).err(), Some(GrammarError::MalformedGrammar));
}

#[test]
fn production_without_body_is_refused() {
    let root = Node::new("Grammar").addkid(Node::new("Production").addkid(sym("NonTerm", "S")));
    assert_eq!(Grammar::new(root).err(), Some(GrammarError::MalformedGrammar));
}

#[test]
fn undefined_nonterminal_is_refused() {
    let r = Grammar::new(tree(&["X"], &[("S", &[&["A", "X"]])]));
    assert_eq!(r.err(), Some(GrammarError::UndefinedNonterminal("A".to_string())));
}

#[test]
fn scenario_two_productions() {
    let g = build(&["X"], &[("S", &[&["A"]]), ("A", &[&["X"]])]);
    let (s, a, x) = (n(&g, "S"), n(&g, "A"), t(&g, "X"));
    let (ps, pa) = (prod(&g, s, &[a]), prod(&g, a, &[x]));
    let aut = g.LR0_automaton();
    let st0 = &aut.states[0].items;
    assert!(st0.contains(item(&g, ps, 0)));
    assert!(st0.contains(item(&g, pa, 0)));
    let on_a = target(&aut, 0, a).expect("goto on A");
    assert!(aut.states[on_a].items.contains(item(&g, ps, 1)));
    let on_x = target(&aut, 0, x).expect("goto on X");
    assert_eq!(elems(&aut.states[on_x].items), vec![item(&g, pa, 1)]);
    assert_eq!(elems(&g.FOLLOW(a)), vec![END]);
    assert_eq!(elems(&g.FOLLOW(s)), vec![END]);
    let tb = table_of(&aut);
    assert_eq!(tb.actions[0][x], LRAction::Shift(on_x));
    assert_eq!(tb.actions[0][a], LRAction::Goto(on_a));
    assert_eq!(tb.actions[on_x][END], LRAction::Reduce(pa));
    assert_eq!(tb.actions[on_a][END], LRAction::Reduce(ps));
    let on_s = target(&aut, 0, s).expect("goto on S");
    assert_eq!(tb.actions[on_s][END], LRAction::Accept);
    assert_eq!(aut.states.len(), 4);
}

#[test]
fn scenario_left_recursive_expression() {
    let g = expr_grammar();
    let (e, tt, plus, idt) = (n(&g, "E"), n(&g, "T"), t(&g, "PLUS"), t(&g, "ID"));
    assert_eq!(elems(&g.FIRST(e)), vec![idt]);
    assert_eq!(elems(&g.FIRST(tt)), vec![idt]);
    assert!(g.FOLLOW(e).contains(plus));
    assert!(g.FOLLOW(tt).contains(plus));
    assert_eq!(sorted(elems(&g.FOLLOW(e))), sorted(vec![END, plus]));
    let aut = g.LR0_automaton();
    assert_eq!(aut.states.len(), 6);
    let tb = table_of(&aut);
    assert!(matches!(tb.actions[0][idt], LRAction::Shift(_)));
    assert!(matches!(tb.actions[0][e], LRAction::Goto(_)));
    assert!(matches!(tb.actions[0][tt], LRAction::Goto(_)));
    assert_eq!(tb.actions[0][plus], LRAction::Error);
}

#[test]
fn scenario_epsilon_alternative() {
    let g = build(
        &["X", "Y"],
        &[("S", &[&["A", "B"]]), ("A", &[&["X"], &[]]), ("B", &[&["Y"]])],
    );
    let (s, a, b, x, y) = (n(&g, "S"), n(&g, "A"), n(&g, "B"), t(&g, "X"), t(&g, "Y"));
    assert_eq!(sorted(elems(&g.FIRST(a))), sorted(vec![x, EPSILON]));
    assert_eq!(sorted(elems(&g.FIRST(s))), sorted(vec![x, y]));
    assert_eq!(elems(&g.FIRST(b)), vec![y]);
    assert!(g.FOLLOW(a).contains(y));
    assert_eq!(elems(&g.FOLLOW(a)), vec![y]);
    let pe = prod(&g, a, &[]);
    let aut = g.LR0_automaton();
    let tb = table_of(&aut);
    assert_eq!(tb.actions[0][y], LRAction::Reduce(pe));
    assert!(matches!(tb.actions[0][x], LRAction::Shift(_)));
}

#[test]
fn scenario_mutual_recursion_with_epsilon() {
    let g = build(&["X"], &[("A", &[&["B", "X"]]), ("B", &[&["A"], &[]])]);
    let (a, b, x) = (n(&g, "A"), n(&g, "B"), t(&g, "X"));
    assert_eq!(elems(&g.FIRST(a)), vec![x]);
    assert_eq!(sorted(elems(&g.FIRST(b))), sorted(vec![x, EPSILON]));
    assert_eq!(elems(&g.FOLLOW(b)), vec![x]);
    assert_eq!(sorted(elems(&g.FOLLOW(a))), sorted(vec![END, x]));
}

#[test]
fn scenario_conflict_is_reported() {
    let g = build(&["a"], &[("S", &[&["A"], &["a"]]), ("A", &[&["a"]])]);
    let (s, a, ta) = (n(&g, "S"), n(&g, "A"), t(&g, "a"));
    let aut = g.LR0_automaton();
    match aut.table() {
        Ok(_) => panic!("a conflict is expected"),
        Err(TableConflict { state, symbol, first, second }) => {
            assert_eq!(Some(state), target(&aut, 0, ta));
            assert_eq!(symbol, END);
            assert_ne!(first, second);
            let reds = [LRAction::Reduce(prod(&g, s, &[ta])), LRAction::Reduce(prod(&g, a, &[ta]))];
            assert!(reds.contains(&first));
            assert!(reds.contains(&second));
        }
    }
}

#[test]
fn scenario_single_epsilon_production() {
    let g = build(&[], &[("S", &[&[]])]);
    let s = n(&g, "S");
    let p = prod(&g, s, &[]);
    let aut = g.LR0_automaton();
    assert!(aut.states[0].items.contains(item(&g, p, 0)));
    assert!(g.FOLLOW(s).contains(END));
    let tb = table_of(&aut);
    assert_eq!(tb.actions[0][END], LRAction::Reduce(p));
    assert_eq!(elems(&g.FIRST(s)), vec![EPSILON]);
}

#[test]
fn closure_is_idempotent() {
    let g = expr_grammar();
    let e = n(&g, "E");
    let p = prod(&g, e, &[e, t(&g, "PLUS"), n(&g, "T")]);
    let mut kernel = SortedSet::new();
    kernel.add(item(&g, p, 2));
    let once = g.closure(&kernel);
    let twice = g.closure(&once);
    assert!(once == twice);
    assert_eq!(once.len(), 2);
    let start = g.closure(&g.start_items());
    assert!(g.closure(&start) == start);
    assert_eq!(start.len(), 4);
}

#[test]
fn goto_matches_transitions() {
    let g = expr_grammar();
    let aut = g.LR0_automaton();
    for s in 0..aut.states.len() {
        for x in 0..g.names.len() {
            let got = g.goto(&aut.states[s].items, x);
            match target(&aut, s, x) {
                Some(tg) => assert!(got == aut.states[tg].items),
                None => assert!(got.is_empty()),
            }
        }
        let mv = g.moves(&aut.states[s].items);
        assert_eq!(mv.len(), aut.states[s].moves.len());
        for (x, set) in mv.iter() {
            let tg = target(&aut, s, *x).expect("transition");
            assert!(*set == aut.states[tg].items);
        }
    }
}

#[test]
fn pipeline_is_deterministic() {
    let g1 = expr_grammar();
    let g2 = expr_grammar();
    let (a1, a2) = (g1.LR0_automaton(), g2.LR0_automaton());
    assert_eq!(a1.states.len(), a2.states.len());
    for s in 0..a1.states.len() {
        assert_eq!(a1.states[s].id, a2.states[s].id);
        assert!(a1.states[s].items == a2.states[s].items);
        assert_eq!(a1.states[s].moves, a2.states[s].moves);
    }
    assert_eq!(table_of(&a1).actions, table_of(&a2).actions);
}

#[test]
fn first_of_rhs_within_first_of_lhs() {
    let g = build(
        &["X", "Y", "Z"],
        &[("S", &[&["A", "B", "Z"], &["B"]]), ("A", &[&["X"], &[]]), ("B", &[&["Y"], &[]])],
    );
    for p in 0..g.productions.len() {
        let rhs = g.FIRST_vec(&g.productions[p].symbols);
        let lhs = g.FIRST(g.productions[p].nt);
        for x in rhs.iter() {
            assert!(lhs.contains(*x));
        }
    }
    let (s, x, y, z) = (n(&g, "S"), t(&g, "X"), t(&g, "Y"), t(&g, "Z"));
    assert_eq!(sorted(elems(&g.FIRST(s))), sorted(vec![x, y, z, EPSILON]));
    let seq = vec![n(&g, "A"), n(&g, "B")];
    assert_eq!(sorted(elems(&g.FIRST_vec(&seq))), sorted(vec![x, y, EPSILON]));
    assert_eq!(elems(&g.FIRST_vec(&vec![])), vec![EPSILON]);
    assert_eq!(elems(&g.FIRST(z)), vec![z]);
}

#[test]
fn follow_holds_terminals_only() {
    let g = build(
        &["X", "Y", "Z"],
        &[("S", &[&["A", "B", "Z"], &["B"]]), ("A", &[&["X"], &[]]), ("B", &[&["Y"], &[]])],
    );
    for a in 0..g.names.len() {
        for y in g.FOLLOW(a).iter() {
            assert!(g.terminal[*y]);
            assert_ne!(*y, EPSILON);
        }
    }
    let (a, b, y, z) = (n(&g, "A"), n(&g, "B"), t(&g, "Y"), t(&g, "Z"));
    assert_eq!(sorted(elems(&g.FOLLOW(a))), sorted(vec![y, z]));
    assert_eq!(sorted(elems(&g.FOLLOW(b))), sorted(vec![z, END]));
}

#[test]
fn table_has_every_transition() {
    let g = expr_grammar();
    let aut = g.LR0_automaton();
    let tb = table_of(&aut);
    for s in 0..aut.states.len() {
        for &(x, tg) in aut.states[s].moves.iter() {
            if g.terminal[x] {
                assert_eq!(tb.actions[s][x], LRAction::Shift(tg));
            } else {
                assert_eq!(tb.actions[s][x], LRAction::Goto(tg));
            }
        }
    }
}

#[test]
fn table_reduces_on_follow() {
    let g = expr_grammar();
    let aut = g.LR0_automaton();
    let tb = table_of(&aut);
    let mut reductions = 0;
    for s in 0..aut.states.len() {
        for &i in aut.states[s].items.iter() {
            let it = g.items[i];
            let p = it.production;
            if p != 0 && it.dot == g.productions[p].symbols.len() {
                for &y in g.FOLLOW(g.productions[p].nt).iter() {
                    assert_eq!(tb.actions[s][y], LRAction::Reduce(p));
                    reductions += 1;
                }
            }
        }
    }
    assert_eq!(reductions, 6);
}

#[test]
fn sorted_sets_order_by_size_then_elements() {
    let mk = |v: &[usize]| {
        let mut s = SortedSet::new();
        for &x in v {
            s.add(x);
        }
        s
    };

    assert_eq!(mk(&[1, 2]).partial_cmp(&mk(&[0, 5, 6])), Some(std::cmp::Ordering::Less));
    assert_eq!(mk(&[0, 5, 6]).partial_cmp(&mk(&[9])), Some(std::cmp::Ordering::Greater));
    assert_eq!(mk(&[1, 3]).partial_cmp(&mk(&[1, 4])), Some(std::cmp::Ordering::Less));
    assert_eq!(mk(&[2, 3]).partial_cmp(&mk(&[1, 4])), Some(std::cmp::Ordering::Greater));
    assert_eq!(mk(&[3, 1]).partial_cmp(&mk(&[1, 3])), Some(std::cmp::Ordering::Equal));
    assert!(mk(&[7]) < mk(&[1, 2]));
}
