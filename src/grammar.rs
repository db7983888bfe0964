//! Grammar model: symbols and productions with dense integer ids, the parse-tree input
//! shape, and the construction of an indexed grammar from such a tree.
use vstd::prelude::*;
use crate::sorted_set::SortedSet;

verus! {

/// The empty string; it appears only inside FIRST sets, never in a right-hand side.
pub const EPSILON: usize = 0;

/// The end-of-input marker, a terminal.
pub const END: usize = 1;

/// The nonterminal of the augmented root production `ROOT -> start`.
pub const ROOT: usize = 2;

/// The first id given to a symbol of the grammar text.
pub const FIRST_USER: usize = 3;

/// A grammar symbol by name, for display.
#[derive(Clone, Debug, PartialEq, Eq)]
pub enum Symbol {
    Term(String),
    NonTerm(String),
    EmptyString,
}

/// A parse-tree node: a label and its ordered children.
#[derive(Debug)]
pub struct Node {
    pub label: String,
    pub kids: Vec<Node>,
}

impl Node {
    pub fn new(label: &str) -> (r: Node)
        ensures
            r.label@ == label@,
            r.kids@.len() == 0,
    {
        Node { label: label.to_owned(), kids: Vec::new() }
    }

    /// Appends a child.
    pub fn addkid(self, node: Node) -> (r: Node)
        ensures
            r.label == self.label,
            r.kids@ == self.kids@.push(node),
    {
        let mut s = self;
        s.kids.push(node);
        s
    }

    /// Prepends a child.
    pub fn enquekid(self, node: Node) -> (r: Node)
        ensures
            r.label == self.label,
            r.kids@ == seq![node] + self.kids@,
    {
        let mut s = self;
        s.kids.insert(0, node);
        assert(s.kids@ =~= seq![node] + self.kids@);
        s
    }
}

/// A production `nt -> symbols`; an empty `symbols` is the ε-production.
#[derive(Clone, Debug)]
pub struct Production {
    pub nt: usize,
    pub symbols: Vec<usize>,
}

impl Production {
    /// Position of the first occurrence of `symbol` in the right-hand side.
    pub fn index_of(&self, symbol: usize) -> (r: Option<usize>)
        ensures
            match r {
                Some(i) => i < self.symbols@.len() && self.symbols@[i as int] == symbol
                    && forall|k: int| 0 <= k < i ==> self.symbols@[k] != symbol,
                None => !self.symbols@.contains(symbol),
            },
    {
        let mut i: usize = 0;
        while i < self.symbols.len()
            invariant
                i <= self.symbols@.len(),
                forall|k: int| 0 <= k < i ==> self.symbols@[k] != symbol,
            decreases self.symbols@.len() - i,
        {
            if self.symbols[i] == symbol {
                return Some(i);
            }
            i = i + 1;
        }
        None
    }
}

/// A dotted production: `dot` symbols of production `production` have been recognised.
#[derive(Clone, Copy, PartialEq, Eq, Structural, Debug)]
pub struct Item {
    pub production: usize,
    pub dot: usize,
}

#[derive(Clone, Debug, PartialEq, Eq)]
pub enum GrammarError {
    /// A node has an unexpected label or number of children.
    MalformedGrammar,
    /// A right-hand side names a nonterminal that has no production.
    UndefinedNonterminal(String),
}

/// An indexed grammar, augmented with the root production `ROOT -> start` (production 0).
/// Symbols are ids into `names` and `terminal`; items are ids into `items`, with
/// `item_base[p] + d` the id of production `p` with the dot at `d`.
pub struct Grammar {
    pub start: usize,
    pub names: Vec<String>,
    pub terminal: Vec<bool>,
    pub productions: Vec<Production>,
    pub items: Vec<Item>,
    pub item_base: Vec<usize>,
    pub first: Vec<SortedSet>,
    pub follow: Vec<SortedSet>,
}

impl Grammar {
    pub open spec fn num_symbols(&self) -> int {
        self.names@.len() as int
    }

    pub open spec fn num_items(&self) -> int {
        self.items@.len() as int
    }

    pub open spec fn is_term(&self, x: usize) -> bool {
        x < self.num_symbols() && self.terminal@[x as int]
    }

    pub open spec fn is_nonterm(&self, x: usize) -> bool {
        ROOT <= x < self.num_symbols() && !self.terminal@[x as int]
    }

    pub open spec fn lhs(&self, p: int) -> usize {
        self.productions@[p].nt
    }

    pub open spec fn rhs(&self, p: int) -> Seq<usize> {
        self.productions@[p].symbols@
    }

    pub open spec fn symbols_wf(&self) -> bool {
        &&& self.terminal@.len() == self.names@.len()
        &&& FIRST_USER <= self.start < self.num_symbols()
        &&& !self.terminal@[EPSILON as int]
        &&& self.terminal@[END as int]
        &&& !self.terminal@[ROOT as int]
        &&& !self.terminal@[self.start as int]
    }

    pub open spec fn productions_wf(&self) -> bool {
        &&& self.productions@.len() >= 1
        &&& self.lhs(0) == ROOT
        &&& self.rhs(0) == seq![self.start]
        &&& forall|p: int|
            1 <= p < self.productions@.len() ==> FIRST_USER <= #[trigger] self.lhs(p)
                && self.is_nonterm(self.lhs(p))
        &&& forall|p: int, k: int|
            0 <= p < self.productions@.len() && 0 <= k < self.rhs(p).len() ==> FIRST_USER
                <= #[trigger] self.rhs(p)[k] < self.num_symbols()
    }

    /// The id of the item of production `p` with the dot at `d`.
    pub open spec fn item_id(&self, p: int, d: int) -> int {
        self.item_base@[p] + d
    }

    pub open spec fn items_wf(&self) -> bool {
        &&& self.item_base@.len() == self.productions@.len()
        &&& self.items@.len() <= usize::MAX
        &&& forall|p: int, d: int|
            0 <= p < self.productions@.len() && 0 <= d <= self.rhs(p).len() ==> {
                &&& #[trigger] self.item_id(p, d) < self.num_items()
                &&& self.items@[self.item_id(p, d)] == Item {
                    production: p as usize,
                    dot: d as usize,
                }
            }
        &&& forall|i: int|
            0 <= i < self.num_items() ==> {
                &&& (#[trigger] self.items@[i]).production < self.productions@.len()
                &&& self.items@[i].dot <= self.rhs(self.items@[i].production as int).len()
                &&& self.item_base@[self.items@[i].production as int] + self.items@[i].dot == i
            }
    }

    /// The structure of the grammar, without its FIRST and FOLLOW tables.
    pub open spec fn shape_wf(&self) -> bool {
        self.symbols_wf() && self.productions_wf() && self.items_wf()
    }
}

impl Grammar {
    /// The symbols of a right-hand side are symbols of the grammar, never ε nor the root.
    pub proof fn lemma_rhs_bounded(&self, p: int)
        requires
            self.shape_wf(),
            0 <= p < self.productions@.len(),
        ensures
            forall|k: int|
                0 <= k < self.productions@[p].symbols@.len() ==> FIRST_USER <= #[trigger] self.productions@[p].symbols@[k]
                    < self.num_symbols(),
            self.lhs(p) < self.num_symbols(),
    {
        assert forall|k: int| 0 <= k < self.productions@[p].symbols@.len() implies FIRST_USER
            <= #[trigger] self.productions@[p].symbols@[k] < self.num_symbols() by {
            assert(FIRST_USER <= self.rhs(p)[k] < self.num_symbols());
        }
        if p > 0 {
            assert(FIRST_USER <= self.lhs(p));
        }
    }
}

} // verus!
