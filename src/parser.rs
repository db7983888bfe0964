//! Recursive-descent parser from tokens to the grammar parse tree:
//! `Productions := (NONTERM ARROW Body SEMI)*`, `Body := Rule (VBAR Rule)*`,
//! `Rule := (TERM | NONTERM | EMPTY)*`, each repetition taken as far as it goes.
use vstd::prelude::*;
use crate::grammar::Node;
use crate::lexer::{scan, skip_white, LexError, Lexer, Scan, Token, TokenType};

verus! {

#[derive(Debug)]
pub enum ParseError {
    Lex(LexError),
    NoMoreInputExpected(TokenType),
    ExpectedButGot(TokenType, TokenType),
    /// The tokens from this position on form no production.
    UnconsumedInput(usize),
}

/// A token by kind and text.
pub type TokenView = (TokenType, Seq<char>);

pub open spec fn is_symbol_kind(k: TokenType) -> bool {
    k == TokenType::TERM || k == TokenType::NONTERM || k == TokenType::EMPTY
}

/// The end of the run of symbol tokens from `i`.
pub open spec fn sym_run_end(ts: Seq<TokenView>, i: int) -> int
    decreases ts.len() - i,
{
    if 0 <= i < ts.len() && is_symbol_kind(ts[i].0) {
        sym_run_end(ts, i + 1)
    } else {
        i
    }
}

/// The end of a body from `i`: the first token that is neither a symbol nor `|`.
pub open spec fn body_end(ts: Seq<TokenView>, i: int) -> int
    decreases ts.len() - i,
{
    if 0 <= i < ts.len() && (is_symbol_kind(ts[i].0) || ts[i].0 == TokenType::VBAR) {
        body_end(ts, i + 1)
    } else {
        i
    }
}

/// The positions right after each `|` of the body part from `i`.
pub open spec fn bar_starts(ts: Seq<TokenView>, i: int) -> Seq<int>
    decreases ts.len() - i,
{
    if 0 <= i < ts.len() && is_symbol_kind(ts[i].0) {
        bar_starts(ts, i + 1)
    } else if 0 <= i < ts.len() && ts[i].0 == TokenType::VBAR {
        seq![i + 1] + bar_starts(ts, i + 1)
    } else {
        Seq::empty()
    }
}

/// Where the rules of the body from `i` start.
pub open spec fn rule_starts(ts: Seq<TokenView>, i: int) -> Seq<int> {
    seq![i] + bar_starts(ts, i)
}

/// The end of the production from `i`, if one starts there.
pub open spec fn production_end(ts: Seq<TokenView>, i: int) -> Option<int> {
    if 0 <= i && i + 1 < ts.len() && ts[i].0 == TokenType::NONTERM && ts[i + 1].0 == TokenType::ARROW {
        let b = body_end(ts, i + 2);
        if b < ts.len() && ts[b].0 == TokenType::SEMI {
            Some(b + 1)
        } else {
            None
        }
    } else {
        None
    }
}

pub proof fn lemma_body_end_ge(ts: Seq<TokenView>, i: int)
    ensures
        body_end(ts, i) >= i,
        0 <= i ==> body_end(ts, i) <= ts.len() || body_end(ts, i) == i,
    decreases ts.len() - i,
{
    if 0 <= i < ts.len() && (is_symbol_kind(ts[i].0) || ts[i].0 == TokenType::VBAR) {
        lemma_body_end_ge(ts, i + 1);
    }
}

#[via_fn]
proof fn production_starts_decreases(ts: Seq<TokenView>, i: int) {
    lemma_body_end_ge(ts, i + 2);
}

/// Where the productions read from `i` start, as long as one follows another.
pub open spec fn production_starts(ts: Seq<TokenView>, i: int) -> Seq<int>
    decreases ts.len() - i
    via production_starts_decreases
{
    match production_end(ts, i) {
        Some(j) => seq![i] + production_starts(ts, j),
        None => Seq::empty(),
    }
}

/// The position where reading productions from `i` stops.
pub open spec fn productions_end(ts: Seq<TokenView>, i: int) -> int {
    let st = production_starts(ts, i);
    if st.len() == 0 {
        i
    } else {
        production_end(ts, st.last())->0
    }
}

pub open spec fn kind_label(k: TokenType) -> Seq<char> {
    match k {
        TokenType::TERM => seq!['T', 'e', 'r', 'm'],
        TokenType::NONTERM => seq!['N', 'o', 'n', 'T', 'e', 'r', 'm'],
        _ => seq!['E', 'm', 'p', 't', 'y'],
    }
}

/// A node without children labelled `text`.
pub open spec fn leaf_is(n: Node, text: Seq<char>) -> bool {
    n.label@ == text && n.kids@.len() == 0
}

/// `n` is the node of symbol token `i`.
pub open spec fn symbol_matches(ts: Seq<TokenView>, i: int, n: Node) -> bool {
    &&& n.label@ == kind_label(ts[i].0)
    &&& n.kids@.len() == 1
    &&& leaf_is(n.kids@[0], ts[i].1)
}

/// `n` is the node of the rule from `i`.
pub open spec fn rule_matches(ts: Seq<TokenView>, i: int, n: Node) -> bool {
    &&& n.label@ == seq!['R', 'u', 'l', 'e']
    &&& n.kids@.len() == sym_run_end(ts, i) - i
    &&& forall|k: int| 0 <= k < n.kids@.len() ==> symbol_matches(ts, i + k, #[trigger] n.kids@[k])
}

/// `n` is the node of the body from `i`.
pub open spec fn body_matches(ts: Seq<TokenView>, i: int, n: Node) -> bool {
    &&& n.label@ == seq!['B', 'o', 'd', 'y']
    &&& n.kids@.len() == rule_starts(ts, i).len()
    &&& forall|k: int| 0 <= k < n.kids@.len() ==> rule_matches(ts, rule_starts(ts, i)[k], #[trigger] n.kids@[k])
}

/// `n` is the node of the production from `i`.
pub open spec fn production_matches(ts: Seq<TokenView>, i: int, n: Node) -> bool {
    &&& n.label@ == seq!['P', 'r', 'o', 'd', 'u', 'c', 't', 'i', 'o', 'n']
    &&& n.kids@.len() == 2
    &&& n.kids@[0].label@ == seq!['N', 'o', 'n', 'T', 'e', 'r', 'm']
    &&& n.kids@[0].kids@.len() == 1
    &&& leaf_is(n.kids@[0].kids@[0], ts[i].1)
    &&& body_matches(ts, i + 2, n.kids@[1])
}

/// `n` is the grammar node of the productions read from `i`.
pub open spec fn grammar_matches(ts: Seq<TokenView>, i: int, n: Node) -> bool {
    &&& n.label@ == seq!['G', 'r', 'a', 'm', 'm', 'a', 'r']
    &&& n.kids@.len() == production_starts(ts, i).len()
    &&& forall|k: int| 0 <= k < n.kids@.len() ==> production_matches(ts, production_starts(ts, i)[k], #[trigger] n.kids@[k])
}

pub open spec fn tokens_view<'a>(v: Seq<Token<'a>>) -> Seq<TokenView> {
    v.map_values(|t: Token<'a>| (t.token, t.lexeme@))
}

/// Skipping the symbols of a rule changes neither where the body ends nor where its
/// later rules start.
pub proof fn lemma_skip_symbols(ts: Seq<TokenView>, j: int)
    requires
        0 <= j,
    ensures
        sym_run_end(ts, j) >= j,
        j <= ts.len() ==> sym_run_end(ts, j) <= ts.len(),
        !(sym_run_end(ts, j) < ts.len() && is_symbol_kind(ts[sym_run_end(ts, j)].0)),
        bar_starts(ts, j) == bar_starts(ts, sym_run_end(ts, j)),
        body_end(ts, j) == body_end(ts, sym_run_end(ts, j)),
    decreases ts.len() - j,
{
    if 0 <= j < ts.len() && is_symbol_kind(ts[j].0) {
        lemma_skip_symbols(ts, j + 1);
    }
}

pub proof fn lemma_skip_white_ge(s: Seq<char>, i: int)
    requires
        0 <= i,
    ensures
        i <= skip_white(s, i),
        i <= s.len() ==> skip_white(s, i) <= s.len(),
    decreases s.len() - i,
{
    if 0 <= i < s.len() && crate::lexer::is_white(s[i]) {
        lemma_skip_white_ge(s, i + 1);
    }
}

pub proof fn lemma_ident_end_ge(s: Seq<char>, i: int)
    requires
        0 <= i,
    ensures
        i <= crate::lexer::ident_end(s, i),
    decreases s.len() - i,
{
    if 0 <= i < s.len() && crate::lexer::is_alpha_num(s[i]) {
        lemma_ident_end_ge(s, i + 1);
    }
}

/// A token found from `tc` lies in the text after `tc`, and the lexer moves past it.
pub proof fn lemma_scan_advances(s: Seq<char>, tc: int)
    requires
        0 <= tc <= s.len(),
    ensures
        scan(s, tc) matches Scan::Found(k, a, b, next) ==> tc <= a <= b < next <= s.len(),
{
    lemma_skip_white_ge(s, tc);
    let st = skip_white(s, tc);
    if st < s.len() {
        lemma_ident_end_ge(s, st + 1);
    }
}

#[via_fn]
proof fn lex_tokens_decreases(s: Seq<char>, tc: int) {
    if 0 <= tc <= s.len() {
        lemma_scan_advances(s, tc);
    }
}

#[via_fn]
proof fn lex_error_decreases(s: Seq<char>, tc: int) {
    if 0 <= tc <= s.len() {
        lemma_scan_advances(s, tc);
    }
}

/// The tokens read from position `tc` of `s` until the text ends or a character is refused.
pub open spec fn lex_tokens(s: Seq<char>, tc: int) -> Seq<TokenView>
    decreases s.len() - tc
    via lex_tokens_decreases
{
    if 0 <= tc <= s.len() {
        match scan(s, tc) {
            Scan::Found(k, a, b, next) => seq![(k, s.subrange(a, b))] + lex_tokens(s, next),
            _ => Seq::empty(),
        }
    } else {
        Seq::empty()
    }
}

/// The character refused when reading from position `tc` of `s`, if any.
pub open spec fn lex_error(s: Seq<char>, tc: int) -> Option<char>
    decreases s.len() - tc
    via lex_error_decreases
{
    if 0 <= tc <= s.len() {
        match scan(s, tc) {
            Scan::Found(_, _, _, next) => lex_error(s, next),
            Scan::Unexpected(c, _) => Some(c),
            Scan::Done => None,
        }
    } else {
        None
    }
}

/// A parser over the tokens of a grammar text.
pub struct Parser<'a> {
    tokens: Vec<Token<'a>>,
}

fn node(label: &str) -> (r: Node)
    ensures
        r.label@ == label@,
        r.kids@.len() == 0,
{
    Node::new(label)
}

impl<'a> Parser<'a> {
    /// The tokens, by kind and text.
    pub closed spec fn ts(&self) -> Seq<TokenView> {
        tokens_view(self.tokens@)
    }

    /// Reads every token of the lexer; the first refused character is the error.
    pub fn new(lexer: &mut Lexer<'a>) -> (r: Result<Parser<'a>, LexError>)
        requires
            old(lexer).wf(),
        ensures
            final(lexer).wf(),
            old(lexer).failed() ==> (r matches Ok(p) && p.ts().len() == 0),
            !old(lexer).failed() ==> match r {
                Ok(p) => lex_error(old(lexer).text()@, old(lexer).pos()) is None && p.ts() == lex_tokens(
                    old(lexer).text()@,
                    old(lexer).pos(),
                ),
                Err(e) => lex_error(old(lexer).text()@, old(lexer).pos()) == Some(
                    match e {
                        LexError::UnexpectedCharacter(c) => c,
                    },
                ),
            },
    {
        let ghost s = lexer.text()@;
        let ghost p0 = lexer.pos();
        let ghost was_failed = lexer.failed();
        let mut tokens: Vec<Token<'a>> = Vec::new();
        proof {
            lexer.lemma_pos();
        }
        loop
            invariant
                s == old(lexer).text()@,
                p0 == old(lexer).pos(),
                was_failed == old(lexer).failed(),
                lexer.wf(),
                lexer.text()@ == s,
                lexer.failed() == was_failed,
                was_failed ==> tokens@.len() == 0,
                !was_failed ==> tokens_view(tokens@) + lex_tokens(s, lexer.pos()) == lex_tokens(s, p0),
                !was_failed ==> lex_error(s, lexer.pos()) == lex_error(s, p0),
                0 <= lexer.pos() <= s.len(),
            decreases s.len() - lexer.pos(),
        {
            let ghost pos = lexer.pos();
            proof {
                lemma_scan_advances(s, pos);
            }
            match lexer.next() {
                None => {
                    proof {
                        if !was_failed {
                            assert(lex_tokens(s, pos) =~= Seq::<TokenView>::empty());
                            assert(tokens_view(tokens@) =~= lex_tokens(s, p0));
                        }
                    }
                    return Ok(Parser { tokens });
                },
                Some(Ok(tok)) => {
                    let ghost before = tokens@;
                    tokens.push(tok);
                    proof {
                        assert(tokens_view(tokens@) =~= tokens_view(before).push((tok.token, tok.lexeme@)));
                        if let Scan::Found(k, a, b, next) = scan(s, pos) {
                            assert(lex_tokens(s, pos) == seq![(k, s.subrange(a, b))] + lex_tokens(s, next));
                            assert(tokens_view(tokens@) + lex_tokens(s, next) =~= tokens_view(before) + lex_tokens(s, pos));
                        }
                    }
                },
                Some(Err(e)) => {
                    return Err(e);
                },
            }
            proof {
                lexer.lemma_pos();
            }
        }
    }

    fn consume(&self, i: usize, toktype: TokenType) -> (r: Result<(usize, Token<'a>), ParseError>)
        ensures
            match r {
                Ok((j, t)) => i < self.ts().len() && self.ts()[i as int].0 == toktype && j == i + 1 && (t.token, t.lexeme@) == self.ts()[i as int],
                Err(_) => !(i < self.ts().len() && self.ts()[i as int].0 == toktype),
            },
    {
        if i >= self.tokens.len() {
            return Err(ParseError::NoMoreInputExpected(toktype));
        }
        let tok = self.tokens[i];
        if tok.token == toktype {
            Ok((i + 1, tok))
        } else {
            Err(ParseError::ExpectedButGot(toktype, tok.token))
        }
    }

    #[allow(non_snake_case)]
    fn Symbol(&self, i: usize) -> (r: Result<(usize, Node), ParseError>)
        ensures
            match r {
                Ok((j, n)) => i < self.ts().len() && is_symbol_kind(self.ts()[i as int].0) && j == i + 1 && symbol_matches(self.ts(), i as int, n),
                Err(_) => !(i < self.ts().len() && is_symbol_kind(self.ts()[i as int].0)),
            },
    {
        if i >= self.tokens.len() {
            return Err(ParseError::NoMoreInputExpected(TokenType::EMPTY));
        }
        let tok = self.tokens[i];
        let leaf = node(tok.lexeme);
        proof {
            reveal_strlit("Term");
            reveal_strlit("NonTerm");
            reveal_strlit("Empty");
            assert("Term"@ =~= kind_label(TokenType::TERM));
            assert("NonTerm"@ =~= kind_label(TokenType::NONTERM));
            assert("Empty"@ =~= kind_label(TokenType::EMPTY));
        }
        match tok.token {
            TokenType::TERM => Ok((i + 1, node("Term").addkid(leaf))),
            TokenType::NONTERM => Ok((i + 1, node("NonTerm").addkid(leaf))),
            TokenType::EMPTY => Ok((i + 1, node("Empty").addkid(leaf))),
            other => Err(ParseError::ExpectedButGot(TokenType::EMPTY, other)),
        }
    }

    /// A rule: the symbols from `i` as long as they last.
    #[allow(non_snake_case)]
    fn Rule(&self, i: usize) -> (r: Result<(usize, Node), ParseError>)
        requires
            i <= self.ts().len(),
        ensures
            r matches Ok((j, n)) && j == sym_run_end(self.ts(), i as int) && rule_matches(self.ts(), i as int, n),
    {
        proof {
            reveal_strlit("Rule");
        }
        let mut rule = node("Rule");
        assert(rule.label@ =~= seq!['R', 'u', 'l', 'e']);
        let mut j: usize = i;
        loop
            invariant
                i <= j <= self.ts().len(),
                sym_run_end(self.ts(), i as int) == sym_run_end(self.ts(), j as int),
                rule.label@ == seq!['R', 'u', 'l', 'e'],
                rule.kids@.len() == j - i,
                forall|k: int| 0 <= k < rule.kids@.len() ==> symbol_matches(self.ts(), i + k, #[trigger] rule.kids@[k]),
            decreases self.ts().len() - j,
        {
            match self.Symbol(j) {
                Ok((next, sym)) => {
                    let ghost before = rule.kids@;
                    rule = rule.addkid(sym);
                    proof {
                        assert forall|k: int| 0 <= k < rule.kids@.len() implies symbol_matches(self.ts(), i + k, #[trigger] rule.kids@[k]) by {
                            if k < before.len() {
                                assert(rule.kids@[k] == before[k]);
                            }
                        }
                    }
                    j = next;
                },
                Err(_) => {
                    return Ok((j, rule));
                },
            }
        }
    }

    /// A body: rules separated by `|`.
    #[allow(non_snake_case)]
    fn Body(&self, i: usize) -> (r: Result<(usize, Node), ParseError>)
        requires
            i <= self.ts().len(),
        ensures
            r matches Ok((j, n)) && j == body_end(self.ts(), i as int) && body_matches(self.ts(), i as int, n),
    {
        let ghost ts = self.ts();
        proof {
            reveal_strlit("Body");
        }
        let mut body = node("Body");
        assert(body.label@ =~= seq!['B', 'o', 'd', 'y']);
        let (first_end, first) = match self.Rule(i) {
            Ok(x) => x,
            Err(e) => {
                return Err(e);
            },
        };
        body = body.addkid(first);
        let mut j = first_end;
        let ghost mut starts: Seq<int> = seq![i as int];
        proof {
            lemma_skip_symbols(ts, i as int);
        }
        while j < self.tokens.len() && self.tokens[j].token == TokenType::VBAR
            invariant
                ts == self.ts(),
                i <= j <= ts.len(),
                ts.len() == self.tokens@.len(),
                starts.len() >= 1,
                j == sym_run_end(ts, starts.last()),
                rule_starts(ts, i as int) == starts + bar_starts(ts, j as int),
                body_end(ts, i as int) == body_end(ts, j as int),
                body.label@ == seq!['B', 'o', 'd', 'y'],
                body.kids@.len() == starts.len(),
                forall|k: int| 0 <= k < body.kids@.len() ==> rule_matches(ts, starts[k], #[trigger] body.kids@[k]),
            decreases ts.len() - j,
        {
            assert(ts[j as int].0 == TokenType::VBAR);
            assert(bar_starts(ts, j as int) == seq![j + 1] + bar_starts(ts, j + 1));
            assert(body_end(ts, j as int) == body_end(ts, j + 1));
            let (next, rule) = match self.Rule(j + 1) {
                Ok(x) => x,
                Err(e) => {
                    return Err(e);
                },
            };
            proof {
                lemma_skip_symbols(ts, j + 1);
            }
            let ghost before = body.kids@;
            let ghost s0 = starts;
            body = body.addkid(rule);
            assert(next > j);
            proof {
                starts = s0.push(j + 1);
                assert(s0 + bar_starts(ts, j as int) =~= starts + bar_starts(ts, j + 1));
                assert forall|k: int| 0 <= k < body.kids@.len() implies rule_matches(ts, starts[k], #[trigger] body.kids@[k]) by {
                    if k < before.len() {
                        assert(body.kids@[k] == before[k]);
                        assert(starts[k] == s0[k]);
                    }
                }
            }
            j = next;
        }
        proof {
            let l = starts.last();
            lemma_skip_symbols(ts, l);
            assert(!(0 <= j < ts.len() && is_symbol_kind(ts[j as int].0)));
            if (j as int) < ts.len() {
                assert(ts[j as int] == (self.tokens@[j as int].token, self.tokens@[j as int].lexeme@));
            }
            assert(bar_starts(ts, j as int) =~= Seq::<int>::empty());
            assert(rule_starts(ts, i as int) =~= starts);
        }
        Ok((j, body))
    }

    /// A production: a nonterminal, `->`, a body and `;`.
    #[allow(non_snake_case)]
    fn Production(&self, i: usize) -> (r: Result<(usize, Node), ParseError>)
        ensures
            match r {
                Ok((j, n)) => production_end(self.ts(), i as int) == Some(j as int) && production_matches(self.ts(), i as int, n),
                Err(_) => production_end(self.ts(), i as int) is None,
            },
    {
        proof {
            reveal_strlit("NonTerm");
            reveal_strlit("Production");
        }
        let (a, tok) = match self.consume(i, TokenType::NONTERM) {
            Ok(x) => x,
            Err(e) => {
                return Err(e);
            },
        };
        let nt = node("NonTerm").addkid(node(tok.lexeme));
        assert(nt.label@ =~= seq!['N', 'o', 'n', 'T', 'e', 'r', 'm']);
        let (b, _) = match self.consume(a, TokenType::ARROW) {
            Ok(x) => x,
            Err(e) => {
                return Err(e);
            },
        };
        let (c, body) = match self.Body(b) {
            Ok(x) => x,
            Err(e) => {
                return Err(e);
            },
        };
        proof {
            lemma_body_end_ge(self.ts(), b as int);
        }
        let (d, _) = match self.consume(c, TokenType::SEMI) {
            Ok(x) => x,
            Err(e) => {
                return Err(e);
            },
        };
        let p = node("Production").addkid(nt).addkid(body);
        assert(p.label@ =~= seq!['P', 'r', 'o', 'd', 'u', 'c', 't', 'i', 'o', 'n']);
        Ok((d, p))
    }

    /// Productions as long as one follows another.
    #[allow(non_snake_case)]
    fn Productions(&self, i: usize) -> (r: Result<(usize, Node), ParseError>)
        ensures
            r matches Ok((j, n)) && j == productions_end(self.ts(), i as int) && grammar_matches(self.ts(), i as int, n),
    {
        let ghost ts = self.ts();
        proof {
            reveal_strlit("Grammar");
        }
        let mut g = node("Grammar");
        assert(g.label@ =~= seq!['G', 'r', 'a', 'm', 'm', 'a', 'r']);
        let mut cur = i;
        let ghost mut done: Seq<int> = Seq::empty();
        loop
            invariant
                ts == self.ts(),
                production_starts(ts, i as int) == done + production_starts(ts, cur as int),
                done.len() == 0 ==> cur == i,
                done.len() > 0 ==> production_end(ts, done.last()) == Some(cur as int),
                g.label@ == seq!['G', 'r', 'a', 'm', 'm', 'a', 'r'],
                g.kids@.len() == done.len(),
                forall|k: int| 0 <= k < g.kids@.len() ==> production_matches(ts, done[k], #[trigger] g.kids@[k]),
                i <= cur,
            decreases usize::MAX - cur,
        {
            match self.Production(cur) {
                Ok((next, p)) => {
                    proof {
                        lemma_body_end_ge(ts, cur + 2);
                    }
                    let ghost before = g.kids@;
                    let ghost d0 = done;
                    g = g.addkid(p);
                    proof {
                        done = d0.push(cur as int);
                        assert(production_starts(ts, cur as int) == seq![cur as int] + production_starts(ts, next as int));
                        assert(d0 + production_starts(ts, cur as int) =~= done + production_starts(ts, next as int));
                        assert forall|k: int| 0 <= k < g.kids@.len() implies production_matches(ts, done[k], #[trigger] g.kids@[k]) by {
                            if k < before.len() {
                                assert(g.kids@[k] == before[k]);
                                assert(done[k] == d0[k]);
                            }
                        }
                    }
                    cur = next;
                },
                Err(_) => {
                    proof {
                        assert(production_starts(ts, cur as int) =~= Seq::<int>::empty());
                        assert(production_starts(ts, i as int) =~= done);
                    }
                    return Ok((cur, g));
                },
            }
        }
    }

    /// The grammar tree of all the tokens.
    pub fn parse(&self) -> (r: Result<Node, ParseError>)
        ensures
            match r {
                Ok(n) => productions_end(self.ts(), 0) == self.ts().len() && grammar_matches(self.ts(), 0, n),
                Err(ParseError::UnconsumedInput(j)) => j == productions_end(self.ts(), 0) && j != self.ts().len(),
                Err(_) => false,
            },
    {
        let (i, n) = match self.Productions(0) {
            Ok(x) => x,
            Err(e) => {
                return Err(e);
            },
        };
        if i != self.tokens.len() {
            return Err(ParseError::UnconsumedInput(i));
        }
        Ok(n)
    }
}

/// The grammar tree of the text that `lexer` reads: every token must belong to a production.
pub fn parse<'a>(lexer: &mut Lexer<'a>) -> (r: Result<Node, ParseError>)
    requires
        old(lexer).wf(),
    ensures
        final(lexer).wf(),
        old(lexer).failed() ==> (r matches Ok(n) && grammar_matches(Seq::empty(), 0, n)),
        !old(lexer).failed() ==> ({
            let s = old(lexer).text()@;
            let p = old(lexer).pos();
            let ts = lex_tokens(s, p);
            match r {
                Ok(n) => lex_error(s, p) is None && productions_end(ts, 0) == ts.len() && grammar_matches(ts, 0, n),
                Err(ParseError::Lex(LexError::UnexpectedCharacter(c))) => lex_error(s, p) == Some(c),
                Err(ParseError::UnconsumedInput(j)) => lex_error(s, p) is None && j == productions_end(ts, 0) && j != ts.len(),
                Err(_) => false,
            }
        }),
{
    let parser = match Parser::new(lexer) {
        Ok(p) => p,
        Err(err) => {
            return Err(ParseError::Lex(err));
        },
    };
    proof {
        if old(lexer).failed() {
            assert(parser.ts() =~= Seq::<TokenView>::empty());
        }
    }
    parser.parse()
}

} // verus!
