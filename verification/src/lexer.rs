//! Tokens of the `if:` expression language and the tokenizer.

use vstd::prelude::*;

use crate::text::{chars_of, is_whitespace, is_ws, string_of_range};

verus! {

/// One token of an `if:` expression.
#[derive(Debug, PartialEq, Eq)]
pub enum Token {
    LParen,
    RParen,
    Comma,
    And,
    Or,
    Not,
    Eq,
    Ne,
    Lt,
    Le,
    Gt,
    Ge,
    Str(String),
    Ident(String),
}

/// A token with its text taken by view.
pub enum SToken {
    LParen,
    RParen,
    Comma,
    And,
    Or,
    Not,
    Eq,
    Ne,
    Lt,
    Le,
    Gt,
    Ge,
    Str(Seq<char>),
    Ident(Seq<char>),
}

impl Token {
    pub open spec fn sv(&self) -> SToken {
        match self {
            Token::LParen => SToken::LParen,
            Token::RParen => SToken::RParen,
            Token::Comma => SToken::Comma,
            Token::And => SToken::And,
            Token::Or => SToken::Or,
            Token::Not => SToken::Not,
            Token::Eq => SToken::Eq,
            Token::Ne => SToken::Ne,
            Token::Lt => SToken::Lt,
            Token::Le => SToken::Le,
            Token::Gt => SToken::Gt,
            Token::Ge => SToken::Ge,
            Token::Str(s) => SToken::Str(s@),
            Token::Ident(s) => SToken::Ident(s@),
        }
    }
}

/// The views of a token sequence.
pub open spec fn token_views(t: Seq<Token>) -> Seq<SToken> {
    t.map_values(|x: Token| x.sv())
}

/// Characters of identifiers (context paths, function names, literals):
/// `[A-Za-z0-9_.-]`.
pub open spec fn is_word_char(c: char) -> bool {
    ('a' <= c && c <= 'z') || ('A' <= c && c <= 'Z') || ('0' <= c && c <= '9') || c == '_' || c == '.' || c == '-'
}

pub fn word_char(c: char) -> (r: bool)
    ensures
        r == is_word_char(c),
{
    ('a' <= c && c <= 'z') || ('A' <= c && c <= 'Z') || ('0' <= c && c <= '9') || c == '_' || c == '.' || c == '-'
}

/// Length of the run of word characters of `s` starting at `i`.
pub open spec fn word_len(s: Seq<char>, i: int) -> nat
    decreases s.len() - i,
{
    if 0 <= i < s.len() && is_word_char(s[i]) {
        1 + word_len(s, i + 1)
    } else {
        0
    }
}

/// The contents of a quoted literal whose opening quote `q` came just before
/// index `i`, and the index after its closing quote; a backslash takes the
/// next character literally. `None` when the literal is not closed.
pub open spec fn literal_from(s: Seq<char>, i: int, q: char) -> Option<(Seq<char>, int)>
    decreases s.len() - i,
{
    if i < 0 || i >= s.len() {
        None
    } else if s[i] == q {
        Some((Seq::empty(), i + 1))
    } else if s[i] == '\\' && i + 1 < s.len() {
        match literal_from(s, i + 2, q) {
            Some((v, n)) => Some((seq![s[i + 1]] + v, n)),
            None => None,
        }
    } else {
        match literal_from(s, i + 1, q) {
            Some((v, n)) => Some((seq![s[i]] + v, n)),
            None => None,
        }
    }
}

/// `t` in front of the tokens `rest`, if there are any.
pub open spec fn cons_tok(t: SToken, rest: Option<Seq<SToken>>) -> Option<Seq<SToken>> {
    match rest {
        Some(r) => Some(seq![t] + r),
        None => None,
    }
}

/// The tokens of `s` from index `i` on, or `None` when some character starts
/// no token (or a quoted literal is not closed).
pub open spec fn tokens_from(s: Seq<char>, i: int) -> Option<Seq<SToken>>
    decreases s.len() - i,
{
    if i < 0 || i >= s.len() {
        Some(Seq::empty())
    } else {
        let c = s[i];
        let next_is = |d: char| i + 1 < s.len() && s[i + 1] == d;
        if is_ws(c) {
            tokens_from(s, i + 1)
        } else if c == '(' {
            cons_tok(SToken::LParen, tokens_from(s, i + 1))
        } else if c == ')' {
            cons_tok(SToken::RParen, tokens_from(s, i + 1))
        } else if c == ',' {
            cons_tok(SToken::Comma, tokens_from(s, i + 1))
        } else if c == '&' && next_is('&') {
            cons_tok(SToken::And, tokens_from(s, i + 2))
        } else if c == '|' && next_is('|') {
            cons_tok(SToken::Or, tokens_from(s, i + 2))
        } else if c == '=' && next_is('=') {
            cons_tok(SToken::Eq, tokens_from(s, i + 2))
        } else if c == '!' && next_is('=') {
            cons_tok(SToken::Ne, tokens_from(s, i + 2))
        } else if c == '<' && next_is('=') {
            cons_tok(SToken::Le, tokens_from(s, i + 2))
        } else if c == '>' && next_is('=') {
            cons_tok(SToken::Ge, tokens_from(s, i + 2))
        } else if c == '<' {
            cons_tok(SToken::Lt, tokens_from(s, i + 1))
        } else if c == '>' {
            cons_tok(SToken::Gt, tokens_from(s, i + 1))
        } else if c == '!' {
            cons_tok(SToken::Not, tokens_from(s, i + 1))
        } else if c == '\'' || c == '"' {
            match literal_from(s, i + 1, c) {
                None => None,
                Some((v, n)) => {
                    proof {
                        lemma_literal_end(s, i + 1, c);
                    }
                    cons_tok(SToken::Str(v), tokens_from(s, n))
                },
            }
        } else if is_word_char(c) {
            let w = word_len(s, i);
            proof {
                lemma_word_len_bound(s, i);
            }
            cons_tok(SToken::Ident(s.subrange(i, i + w)), tokens_from(s, i + w))
        } else {
            None
        }
    }
}

/// The tokens of `s`.
pub open spec fn tokens(s: Seq<char>) -> Option<Seq<SToken>> {
    tokens_from(s, 0)
}

pub proof fn lemma_word_len_bound(s: Seq<char>, i: int)
    requires
        0 <= i <= s.len(),
    ensures
        i + word_len(s, i) <= s.len(),
    decreases s.len() - i,
{
    if 0 <= i < s.len() && is_word_char(s[i]) {
        lemma_word_len_bound(s, i + 1);
    }
}

pub proof fn lemma_literal_end(s: Seq<char>, i: int, q: char)
    ensures
        literal_from(s, i, q) matches Some((v, n)) ==> i < n <= s.len(),
    decreases s.len() - i,
{
    if i < 0 || i >= s.len() {
    } else if s[i] == q {
    } else if s[i] == '\\' && i + 1 < s.len() {
        lemma_literal_end(s, i + 2, q);
    } else {
        lemma_literal_end(s, i + 1, q);
    }
}

/// Scan the quoted literal whose opening quote came just before `i`.
fn scan_literal(v: &Vec<char>, i: usize, q: char) -> (r: Option<(String, usize)>)
    requires
        i <= v.len(),
    ensures
        match (r, literal_from(v@, i as int, q)) {
            (Some((a, n)), Some((b, m))) => a@ == b && n as int == m,
            (None, None) => true,
            _ => false,
        },
{
    let mut value = String::new();
    let mut j = i;
    let ghost acc: Seq<char> = Seq::empty();
    loop
        invariant
            i <= j <= v.len(),
            literal_from(v@, i as int, q) == match literal_from(v@, j as int, q) {
                Some((w, n)) => Some((value@ + w, n)),
                None => None,
            },
        decreases v.len() - j,
    {
        if j >= v.len() {
            return None;
        }
        if v[j] == q {
            assert(value@ + Seq::<char>::empty() =~= value@);
            return Some((value, j + 1));
        }
        let ghost old_value = value@;
        if v[j] == '\\' && j + 1 < v.len() {
            crate::text::push_char(&mut value, v[j + 1]);
            proof {
                match literal_from(v@, j + 2, q) {
                    Some((w, n)) => {
                        assert(old_value + (seq![v@[j + 1]] + w) =~= value@ + w);
                    },
                    None => {},
                }
            }
            j += 2;
        } else {
            crate::text::push_char(&mut value, v[j]);
            proof {
                match literal_from(v@, j + 1, q) {
                    Some((w, n)) => {
                        assert(old_value + (seq![v@[j as int]] + w) =~= value@ + w);
                    },
                    None => {},
                }
            }
            j += 1;
        }
    }
}

/// Tokens `done` followed by `rest`, if there is a rest.
pub open spec fn prefixed(done: Seq<SToken>, rest: Option<Seq<SToken>>) -> Option<Seq<SToken>> {
    match rest {
        Some(r) => Some(done + r),
        None => None,
    }
}

/// Split an expression body into tokens; `None` when a character starts no
/// token or a quoted literal is left open.
pub fn tokenize(s: &str) -> (r: Option<Vec<Token>>)
    ensures
        match (r, tokens(s@)) {
            (Some(a), Some(b)) => token_views(a@) == b,
            (None, None) => true,
            _ => false,
        },
{
    let v = chars_of(s);
    let mut out: Vec<Token> = Vec::new();
    let mut i: usize = 0;
    assert(token_views(out@) =~= Seq::<SToken>::empty());
    while i < v.len()
        invariant
            i <= v.len(),
            v@ == s@,
            tokens(s@) == prefixed(token_views(out@), tokens_from(v@, i as int)),
        decreases v.len() - i,
    {
        let c = v[i];
        let ghost before = token_views(out@);
        let next = if i + 1 < v.len() { Some(v[i + 1]) } else { None };
        if is_whitespace(c) {
            i += 1;
            continue;
        }
        let (tok, adv): (Option<Token>, usize) = if c == '(' {
            (Some(Token::LParen), 1)
        } else if c == ')' {
            (Some(Token::RParen), 1)
        } else if c == ',' {
            (Some(Token::Comma), 1)
        } else if c == '&' && next == Some('&') {
            (Some(Token::And), 2)
        } else if c == '|' && next == Some('|') {
            (Some(Token::Or), 2)
        } else if c == '=' && next == Some('=') {
            (Some(Token::Eq), 2)
        } else if c == '!' && next == Some('=') {
            (Some(Token::Ne), 2)
        } else if c == '<' && next == Some('=') {
            (Some(Token::Le), 2)
        } else if c == '>' && next == Some('=') {
            (Some(Token::Ge), 2)
        } else if c == '<' {
            (Some(Token::Lt), 1)
        } else if c == '>' {
            (Some(Token::Gt), 1)
        } else if c == '!' {
            (Some(Token::Not), 1)
        } else {
            (None, 0)
        };
        match tok {
            Some(t) => {
                out.push(t);
                proof {
                    assert(token_views(out@) =~= before.push(t.sv()));
                    assert(before + (seq![t.sv()] + tokens_from(v@, i + adv).unwrap_or(Seq::empty()))
                        =~= token_views(out@) + tokens_from(v@, i + adv).unwrap_or(Seq::empty()));
                }
                i += adv;
            },
            None => {
                if c == '\'' || c == '"' {
                    match scan_literal(&v, i + 1, c) {
                        None => {
                            return None;
                        },
                        Some((lit, n)) => {
                            let ghost litv = lit@;
                            proof {
                                lemma_literal_end(v@, i + 1, c);
                            }
                            out.push(Token::Str(lit));
                            proof {
                                assert(token_views(out@) =~= before.push(SToken::Str(litv)));
                                assert(before + (seq![SToken::Str(litv)] + tokens_from(v@, n as int).unwrap_or(Seq::empty()))
                                    =~= token_views(out@) + tokens_from(v@, n as int).unwrap_or(Seq::empty()));
                            }
                            i = n;
                        },
                    }
                } else if word_char(c) {
                    let mut j = i;
                    while j < v.len() && word_char(v[j])
                        invariant
                            i <= j <= v.len(),
                            word_len(v@, i as int) == (j - i) + word_len(v@, j as int),
                        decreases v.len() - j,
                    {
                        j += 1;
                    }
                    let word = string_of_range(&v, i, j);
                    let ghost wv = word@;
                    out.push(Token::Ident(word));
                    proof {
                        assert(token_views(out@) =~= before.push(SToken::Ident(wv)));
                        assert(before + (seq![SToken::Ident(wv)] + tokens_from(v@, j as int).unwrap_or(Seq::empty()))
                            =~= token_views(out@) + tokens_from(v@, j as int).unwrap_or(Seq::empty()));
                    }
                    i = j;
                } else {
                    return None;
                }
            },
        }
    }
    assert(token_views(out@) + Seq::<SToken>::empty() =~= token_views(out@));
    Some(out)
}

} // verus!
