//! Tokens of the grammar language: terminals (all capitals, at least two letters),
//! nonterminals (a capital, then letters, digits, `_` or `'`), `->`, `|`, `;` and `e`.
use vstd::prelude::*;
use vstd::string::StrSliceExecFns;

verus! {

#[derive(Clone, Copy, PartialEq, Eq, Structural, Debug)]
pub enum TokenType {
    TERM,
    NONTERM,
    SEMI,
    VBAR,
    ARROW,
    EMPTY,
}

#[derive(Clone, Copy, PartialEq, Eq, Structural, Debug)]
pub enum LexError {
    UnexpectedCharacter(char),
}

/// A token and the text it was read from.
#[derive(Clone, Copy, Debug)]
pub struct Token<'a> {
    pub token: TokenType,
    pub lexeme: &'a str,
}

/// A lexer over `text`; `tc` is the position, in characters, where the next token is sought.
pub struct Lexer<'a> {
    text: &'a str,
    chars: Vec<char>,
    tc: usize,
    failed: bool,
}

pub open spec fn is_white(c: char) -> bool {
    c == ' ' || c == '\n' || c == '\t'
}

pub open spec fn is_big(c: char) -> bool {
    'A' <= c && c <= 'Z'
}

pub open spec fn is_not_big(c: char) -> bool {
    ('a' <= c && c <= 'z') || ('0' <= c && c <= '9') || c == '_' || c == '\''
}

pub open spec fn is_alpha_num(c: char) -> bool {
    is_big(c) || is_not_big(c)
}

/// The first position from `i` that holds no white space.
pub open spec fn skip_white(s: Seq<char>, i: int) -> int
    decreases s.len() - i,
{
    if i < 0 || i >= s.len() || !is_white(s[i]) {
        i
    } else {
        skip_white(s, i + 1)
    }
}

/// The end of the run of letters, digits, `_` and `'` from `i`.
pub open spec fn ident_end(s: Seq<char>, i: int) -> int
    decreases s.len() - i,
{
    if i < 0 || i >= s.len() || !is_alpha_num(s[i]) {
        i
    } else {
        ident_end(s, i + 1)
    }
}

/// What the lexer finds from position `tc`.
pub enum Scan {
    /// No token: the text ends first. A token counts only once the character after it
    /// has been read; that character is then skipped.
    Done,
    /// A token of kind `0` over positions `1..2`; the lexer goes on from `3`.
    Found(TokenType, int, int, int),
    /// A character that no token can hold; when `1`, the lexer stops for good.
    Unexpected(char, bool),
}

pub open spec fn punct_kind(c: char) -> Option<TokenType> {
    if c == ';' {
        Some(TokenType::SEMI)
    } else if c == '|' {
        Some(TokenType::VBAR)
    } else if c == 'e' {
        Some(TokenType::EMPTY)
    } else {
        None
    }
}

/// The token found in `s` from position `tc`.
pub open spec fn scan(s: Seq<char>, tc: int) -> Scan {
    let st = skip_white(s, tc);
    if st >= s.len() {
        Scan::Done
    } else if punct_kind(s[st]) is Some {
        if st + 1 < s.len() {
            Scan::Found(punct_kind(s[st])->0, st, st + 1, st + 2)
        } else {
            Scan::Done
        }
    } else if s[st] == '-' {
        if st + 1 >= s.len() {
            Scan::Done
        } else if s[st + 1] != '>' {
            Scan::Unexpected(s[st + 1], false)
        } else if st + 2 < s.len() {
            Scan::Found(TokenType::ARROW, st, st + 2, st + 3)
        } else {
            Scan::Done
        }
    } else if is_big(s[st]) {
        let e = ident_end(s, st + 1);
        if e < s.len() {
            let kind = if e - st >= 2 && forall|k: int| st <= k < e ==> is_big(#[trigger] s[k]) {
                TokenType::TERM
            } else {
                TokenType::NONTERM
            };
            Scan::Found(kind, st, e, e + 1)
        } else {
            Scan::Done
        }
    } else {
        Scan::Unexpected(s[st], true)
    }
}

/// A lexer at the start of `text`.
pub fn gram_lexer<'a>(text: &'a str) -> (r: Lexer<'a>)
    ensures
        r.wf(),
        r.text() == text,
        r.pos() == 0,
        !r.failed(),
{
    let n = text.unicode_len();
    let mut chars: Vec<char> = Vec::new();
    let mut i: usize = 0;
    while i < n
        invariant
            n == text@.len(),
            i <= n,
            chars@ == text@.subrange(0, i as int),
        decreases n - i,
    {
        chars.push(text.get_char(i));
        i = i + 1;
        assert(chars@ =~= text@.subrange(0, i as int));
    }
    assert(chars@ =~= text@);
    Lexer { text, chars, tc: 0, failed: false }
}

impl<'a> Lexer<'a> {
    pub closed spec fn text(&self) -> &'a str {
        self.text
    }

    pub closed spec fn pos(&self) -> int {
        self.tc as int
    }

    pub closed spec fn failed(&self) -> bool {
        self.failed
    }

    pub closed spec fn wf(&self) -> bool {
        self.chars@ == self.text@ && self.tc <= self.chars@.len()
    }

    /// The position of a well-formed lexer lies within its text.
    pub proof fn lemma_pos(&self)
        requires
            self.wf(),
        ensures
            0 <= self.pos() <= self.text()@.len(),
    {
    }

    fn white(ch: char) -> (r: bool)
        ensures
            r == is_white(ch),
    {
        ch == ' ' || ch == '\n' || ch == '\t'
    }

    fn big(ch: char) -> (r: bool)
        ensures
            r == is_big(ch),
    {
        'A' <= ch && ch <= 'Z'
    }

    fn not_big(ch: char) -> (r: bool)
        ensures
            r == is_not_big(ch),
    {
        ('a' <= ch && ch <= 'z') || ('0' <= ch && ch <= '9') || ch == '_' || ch == '\''
    }

    fn alpha_num(ch: char) -> (r: bool)
        ensures
            r == is_alpha_num(ch),
    {
        Lexer::big(ch) || Lexer::not_big(ch)
    }

    /// The next token, `None` at the end of the text or once the lexer has stopped.
    pub fn next(&mut self) -> (r: Option<Result<Token<'a>, LexError>>)
        requires
            old(self).wf(),
        ensures
            final(self).wf(),
            final(self).text() == old(self).text(),
            old(self).failed() ==> r is None && *final(self) == *old(self),
            !old(self).failed() ==> match scan(old(self).text()@, old(self).pos()) {
                Scan::Done => r is None && final(self).pos() == old(self).pos() && !final(self).failed(),
                Scan::Found(kind, a, b, next) => {
                    &&& r matches Some(Ok(tok))
                    &&& r->0->Ok_0.token == kind
                    &&& r->0->Ok_0.lexeme@ == old(self).text()@.subrange(a, b)
                    &&& final(self).pos() == next
                    &&& !final(self).failed()
                },
                Scan::Unexpected(c, stop) => {
                    &&& r == Some(Err::<Token<'a>, LexError>(LexError::UnexpectedCharacter(c)))
                    &&& final(self).pos() == old(self).pos()
                    &&& final(self).failed() == stop
                },
            },
    {
        if self.failed {
            return None;
        }
        let ghost s = self.chars@;
        let len = self.chars.len();
        let mut st = self.tc;
        while st < len && Lexer::white(self.chars[st])
            invariant
                s == self.chars@,
                len == s.len(),
                self.tc <= st <= len,
                skip_white(s, self.tc as int) == skip_white(s, st as int),
            decreases len - st,
        {
            st = st + 1;
        }
        if st >= len {
            return None;
        }
        let c = self.chars[st];
        if c == ';' || c == '|' || c == 'e' {
            if st + 1 < len {
                let kind = if c == ';' {
                    TokenType::SEMI
                } else if c == '|' {
                    TokenType::VBAR
                } else {
                    TokenType::EMPTY
                };
                self.tc = st + 2;
                return Some(Ok(Token { token: kind, lexeme: self.text.substring_char(st, st + 1) }));
            }
            return None;
        }
        if c == '-' {
            if st + 1 >= len {
                return None;
            }
            let d = self.chars[st + 1];
            if d != '>' {
                return Some(Err(LexError::UnexpectedCharacter(d)));
            }
            if st + 2 < len {
                self.tc = st + 3;
                return Some(Ok(Token { token: TokenType::ARROW, lexeme: self.text.substring_char(st, st + 2) }));
            }
            return None;
        }
        if Lexer::big(c) {
            let mut e = st + 1;
            let mut all_big = true;
            while e < len && Lexer::alpha_num(self.chars[e])
                invariant
                    s == self.chars@,
                    len == s.len(),
                    st < e <= len,
                    ident_end(s, st + 1) == ident_end(s, e as int),
                    all_big == forall|k: int| st <= k < e ==> is_big(#[trigger] s[k]),
                    is_big(s[st as int]),
                decreases len - e,
            {
                if !Lexer::big(self.chars[e]) {
                    all_big = false;
                }
                e = e + 1;
                proof {
                    if all_big {
                        assert forall|k: int| st <= k < e implies is_big(#[trigger] s[k]) by {
                            if k < e - 1 {
                            }
                        }
                    } else {
                        if forall|k: int| st <= k < e ==> is_big(#[trigger] s[k]) {
                            assert(forall|k: int| st <= k < e - 1 ==> is_big(#[trigger] s[k]));
                            assert(is_big(s[e - 1]));
                        }
                    }
                }
            }
            if e < len {
                let kind = if e - st >= 2 && all_big {
                    TokenType::TERM
                } else {
                    TokenType::NONTERM
                };
                self.tc = e + 1;
                return Some(Ok(Token { token: kind, lexeme: self.text.substring_char(st, e) }));
            }
            return None;
        }
        self.failed = true;
        Some(Err(LexError::UnexpectedCharacter(c)))
    }
}

} // verus!
