//! Recursive-descent parser for `if:` expressions: `||` binds loosest, then
//! `&&`, then `!`; a primary is a parenthesized expression or a value with an
//! optional comparison against a second value.

use vstd::prelude::*;

use crate::lexer::{SToken, Token, token_views};
use crate::number::{Num, SNum, parse_num, parse_num_spec, wf_num, eq_nocase, lower};
use crate::smap::str_eq;
use crate::text::chars_of;

verus! {

/// A comparison operator.
#[derive(Debug, Clone, Copy, PartialEq, Eq, Structural)]
pub enum CompareOp {
    Eq,
    Ne,
    Lt,
    Le,
    Gt,
    Ge,
}

/// A value operand.
#[derive(Debug)]
pub enum ValueExpr {
    String(String),
    Number(Num),
    Bool(bool),
    Path(String),
    Call(String, Vec<Expr>),
}

/// A parsed expression.
#[derive(Debug)]
pub enum Expr {
    Value(ValueExpr),
    Compare(ValueExpr, CompareOp, ValueExpr),
    Not(Box<Expr>),
    And(Box<Expr>, Box<Expr>),
    Or(Box<Expr>, Box<Expr>),
}

/// The view of a [`ValueExpr`].
pub enum SValueExpr {
    Str(Seq<char>),
    Number(SNum),
    Bool(bool),
    Path(Seq<char>),
    Call(Seq<char>, Seq<SExpr>),
}

/// The view of an [`Expr`].
pub enum SExpr {
    Value(SValueExpr),
    Compare(SValueExpr, CompareOp, SValueExpr),
    Not(Box<SExpr>),
    And(Box<SExpr>, Box<SExpr>),
    Or(Box<SExpr>, Box<SExpr>),
}

impl ValueExpr {
    pub open spec fn sv(&self) -> SValueExpr
        decreases self,
    {
        match self {
            ValueExpr::String(s) => SValueExpr::Str(s@),
            ValueExpr::Number(n) => SValueExpr::Number(n.sv()),
            ValueExpr::Bool(b) => SValueExpr::Bool(*b),
            ValueExpr::Path(p) => SValueExpr::Path(p@),
            ValueExpr::Call(n, args) => SValueExpr::Call(n@, args_sv(args@)),
        }
    }
}

/// The views of call arguments.
pub open spec fn args_sv(args: Seq<Expr>) -> Seq<SExpr>
    decreases args,
{
    if args.len() == 0 {
        Seq::empty()
    } else {
        args_sv(args.drop_last()).push(args.last().sv())
    }
}

impl Expr {
    pub open spec fn sv(&self) -> SExpr
        decreases self,
    {
        match self {
            Expr::Value(v) => SExpr::Value(v.sv()),
            Expr::Compare(a, op, b) => SExpr::Compare(a.sv(), *op, b.sv()),
            Expr::Not(e) => SExpr::Not(Box::new((**e).sv())),
            Expr::And(a, b) => SExpr::And(Box::new((**a).sv()), Box::new((**b).sv())),
            Expr::Or(a, b) => SExpr::Or(Box::new((**a).sv()), Box::new((**b).sv())),
        }
    }
}

/// The views of the arguments, one for one.
pub proof fn lemma_args_sv(args: Seq<Expr>)
    ensures
        args_sv(args).len() == args.len(),
        forall|i: int| 0 <= i < args.len() ==> #[trigger] args_sv(args)[i] == args[i].sv(),
    decreases args.len(),
{
    if args.len() > 0 {
        lemma_args_sv(args.drop_last());
        assert forall|i: int| 0 <= i < args.len() implies #[trigger] args_sv(args)[i] == args[i].sv() by {
            if i < args.len() - 1 {
                assert(args.drop_last()[i] == args[i]);
            }
        }
    }
}

/// Token `p` of `t` exists and is `k` (a token without contents).
pub open spec fn tok_is(t: Seq<SToken>, p: int, k: SToken) -> bool {
    0 <= p < t.len() && t[p] == k
}

pub open spec fn p_expr(t: Seq<SToken>, p: int) -> Option<(SExpr, int)>
    decreases t.len() - p, 5int,
{
    p_or(t, p)
}

pub open spec fn p_or(t: Seq<SToken>, p: int) -> Option<(SExpr, int)>
    decreases t.len() - p, 4int,
{
    match p_and(t, p) {
        Some((l, q)) => if p < q <= t.len() { p_or_rest(t, l, q) } else { None },
        None => None,
    }
}

pub open spec fn p_or_rest(t: Seq<SToken>, l: SExpr, q: int) -> Option<(SExpr, int)>
    decreases t.len() - q, 6int,
{
    if q < 0 || q > t.len() {
        None
    } else if tok_is(t, q, SToken::Or) {
        match p_and(t, q + 1) {
            Some((r, q2)) => if q + 1 < q2 <= t.len() {
                p_or_rest(t, SExpr::Or(Box::new(l), Box::new(r)), q2)
            } else {
                None
            },
            None => None,
        }
    } else {
        Some((l, q))
    }
}

pub open spec fn p_and(t: Seq<SToken>, p: int) -> Option<(SExpr, int)>
    decreases t.len() - p, 3int,
{
    match p_unary(t, p) {
        Some((l, q)) => if p < q <= t.len() { p_and_rest(t, l, q) } else { None },
        None => None,
    }
}

pub open spec fn p_and_rest(t: Seq<SToken>, l: SExpr, q: int) -> Option<(SExpr, int)>
    decreases t.len() - q, 7int,
{
    if q < 0 || q > t.len() {
        None
    } else if tok_is(t, q, SToken::And) {
        match p_unary(t, q + 1) {
            Some((r, q2)) => if q + 1 < q2 <= t.len() {
                p_and_rest(t, SExpr::And(Box::new(l), Box::new(r)), q2)
            } else {
                None
            },
            None => None,
        }
    } else {
        Some((l, q))
    }
}

pub open spec fn p_unary(t: Seq<SToken>, p: int) -> Option<(SExpr, int)>
    decreases t.len() - p, 2int,
{
    if p < 0 || p >= t.len() {
        None
    } else if tok_is(t, p, SToken::Not) {
        match p_unary(t, p + 1) {
            Some((e, q)) => Some((SExpr::Not(Box::new(e)), q)),
            None => None,
        }
    } else {
        p_primary(t, p)
    }
}

/// The comparison operator token at `q`, if any (checked in the order `==`,
/// `!=`, `<=`, `<`, `>=`, `>`).
pub open spec fn compare_op_at(t: Seq<SToken>, q: int) -> Option<CompareOp> {
    if tok_is(t, q, SToken::Eq) {
        Some(CompareOp::Eq)
    } else if tok_is(t, q, SToken::Ne) {
        Some(CompareOp::Ne)
    } else if tok_is(t, q, SToken::Le) {
        Some(CompareOp::Le)
    } else if tok_is(t, q, SToken::Lt) {
        Some(CompareOp::Lt)
    } else if tok_is(t, q, SToken::Ge) {
        Some(CompareOp::Ge)
    } else if tok_is(t, q, SToken::Gt) {
        Some(CompareOp::Gt)
    } else {
        None
    }
}

pub open spec fn p_primary(t: Seq<SToken>, p: int) -> Option<(SExpr, int)>
    decreases t.len() - p, 1int,
{
    if p < 0 || p >= t.len() {
        None
    } else if tok_is(t, p, SToken::LParen) {
        match p_expr(t, p + 1) {
            Some((e, q)) => if p + 1 < q <= t.len() && tok_is(t, q, SToken::RParen) {
                Some((e, q + 1))
            } else {
                None
            },
            None => None,
        }
    } else {
        match p_value(t, p) {
            Some((lhs, q)) => if p < q <= t.len() {
                match compare_op_at(t, q) {
                    Some(op) => match p_value(t, q + 1) {
                        Some((rhs, q2)) => Some((SExpr::Compare(lhs, op, rhs), q2)),
                        None => None,
                    },
                    None => Some((SExpr::Value(lhs), q)),
                }
            } else {
                None
            },
            None => None,
        }
    }
}

/// The value an identifier denotes when it is not a call: `true`/`false` in
/// any case, a number, or a context path.
pub open spec fn ident_value(name: Seq<char>) -> SValueExpr {
    if eq_nocase(name, seq!['t', 'r', 'u', 'e']) {
        SValueExpr::Bool(true)
    } else if eq_nocase(name, seq!['f', 'a', 'l', 's', 'e']) {
        SValueExpr::Bool(false)
    } else {
        match parse_num_spec(name) {
            Some(n) => SValueExpr::Number(n),
            None => SValueExpr::Path(name),
        }
    }
}

pub open spec fn p_value(t: Seq<SToken>, p: int) -> Option<(SValueExpr, int)>
    decreases t.len() - p, 0int,
{
    if p < 0 || p >= t.len() {
        None
    } else {
        match t[p] {
            SToken::Str(s) => Some((SValueExpr::Str(s), p + 1)),
            SToken::Ident(name) => if tok_is(t, p + 1, SToken::LParen) {
                if tok_is(t, p + 2, SToken::RParen) {
                    Some((SValueExpr::Call(name, Seq::empty()), p + 3))
                } else {
                    p_args(t, p + 2, name, Seq::empty())
                }
            } else {
                Some((ident_value(name), p + 1))
            },
            _ => None,
        }
    }
}

/// Call arguments from `q` on, after the arguments `acc` already read.
pub open spec fn p_args(t: Seq<SToken>, q: int, name: Seq<char>, acc: Seq<SExpr>) -> Option<(SValueExpr, int)>
    decreases t.len() - q, 8int,
{
    if q < 0 || q > t.len() {
        None
    } else {
        match p_expr(t, q) {
            Some((arg, q2)) => if q < q2 <= t.len() {
                if tok_is(t, q2, SToken::RParen) {
                    Some((SValueExpr::Call(name, acc.push(arg)), q2 + 1))
                } else if tok_is(t, q2, SToken::Comma) {
                    p_args(t, q2 + 1, name, acc.push(arg))
                } else {
                    None
                }
            } else {
                None
            },
            None => None,
        }
    }
}

/// The whole token sequence parsed as one expression, all tokens consumed.
pub open spec fn parse_all(t: Seq<SToken>) -> Option<SExpr> {
    match p_expr(t, 0) {
        Some((e, q)) => if q == t.len() { Some(e) } else { None },
        None => None,
    }
}

/// The parsed form matches the spec result at `p` on success.
pub open spec fn parsed_as(r: Option<Expr>, s: Option<(SExpr, int)>, pos: usize, p: int, len: nat) -> bool {
    match (r, s) {
        (Some(e), Some((se, q))) => e.sv() == se && wf_expr(se) && pos == q && p < q <= len,
        (None, None) => true,
        _ => false,
    }
}

pub open spec fn parsed_value_as(r: Option<ValueExpr>, s: Option<(SValueExpr, int)>, pos: usize, p: int, len: nat) -> bool {
    match (r, s) {
        (Some(e), Some((se, q))) => e.sv() == se && wf_value_expr(se) && pos == q && p < q <= len,
        (None, None) => true,
        _ => false,
    }
}

/// Every number literal in the value is a well-formed number.
pub open spec fn wf_value_expr(v: SValueExpr) -> bool
    decreases v, 1int,
{
    match v {
        SValueExpr::Number(n) => wf_num(n),
        SValueExpr::Call(_, args) => wf_args(args),
        _ => true,
    }
}

/// Every argument is well formed.
pub open spec fn wf_args(args: Seq<SExpr>) -> bool
    decreases args, 0int,
{
    if args.len() == 0 {
        true
    } else {
        wf_args(args.drop_last()) && wf_expr(args.last())
    }
}

/// Every number literal in the expression is a well-formed number.
pub open spec fn wf_expr(e: SExpr) -> bool
    decreases e, 2int,
{
    match e {
        SExpr::Value(v) => wf_value_expr(v),
        SExpr::Compare(a, _, b) => wf_value_expr(a) && wf_value_expr(b),
        SExpr::Not(x) => wf_expr(*x),
        SExpr::And(a, b) => wf_expr(*a) && wf_expr(*b),
        SExpr::Or(a, b) => wf_expr(*a) && wf_expr(*b),
    }
}

/// Every argument of well-formed arguments is well formed.
pub proof fn lemma_wf_args(args: Seq<SExpr>)
    requires
        wf_args(args),
    ensures
        forall|i: int| 0 <= i < args.len() ==> #[trigger] wf_expr(args[i]),
    decreases args.len(),
{
    if args.len() > 0 {
        lemma_wf_args(args.drop_last());
        assert forall|i: int| 0 <= i < args.len() implies #[trigger] wf_expr(args[i]) by {
            if i < args.len() - 1 {
                assert(args.drop_last()[i] == args[i]);
            }
        }
    }
}

impl Clone for Token {
    fn clone(&self) -> (r: Self)
        ensures
            r == *self,
    {
        match self {
            Token::LParen => Token::LParen,
            Token::RParen => Token::RParen,
            Token::Comma => Token::Comma,
            Token::And => Token::And,
            Token::Or => Token::Or,
            Token::Not => Token::Not,
            Token::Eq => Token::Eq,
            Token::Ne => Token::Ne,
            Token::Lt => Token::Lt,
            Token::Le => Token::Le,
            Token::Gt => Token::Gt,
            Token::Ge => Token::Ge,
            Token::Str(s) => Token::Str(s.clone()),
            Token::Ident(s) => Token::Ident(s.clone()),
        }
    }
}

/// Whether two tokens are the same.
pub fn same_token(a: &Token, b: &Token) -> (r: bool)
    ensures
        r == (a.sv() == b.sv()),
{
    match (a, b) {
        (Token::LParen, Token::LParen) => true,
        (Token::RParen, Token::RParen) => true,
        (Token::Comma, Token::Comma) => true,
        (Token::And, Token::And) => true,
        (Token::Or, Token::Or) => true,
        (Token::Not, Token::Not) => true,
        (Token::Eq, Token::Eq) => true,
        (Token::Ne, Token::Ne) => true,
        (Token::Lt, Token::Lt) => true,
        (Token::Le, Token::Le) => true,
        (Token::Gt, Token::Gt) => true,
        (Token::Ge, Token::Ge) => true,
        (Token::Str(x), Token::Str(y)) => str_eq(x.as_str(), y.as_str()),
        (Token::Ident(x), Token::Ident(y)) => str_eq(x.as_str(), y.as_str()),
        _ => false,
    }
}

fn nocase_is(s: &str, w: &Vec<char>) -> (r: bool)
    ensures
        r == eq_nocase(s@, w@),
{
    let v = chars_of(s);
    if v.len() != w.len() {
        return false;
    }
    let mut i: usize = 0;
    while i < v.len()
        invariant
            i <= v.len() == w.len(),
            v@ == s@,
            forall|k: int| 0 <= k < i ==> lower(#[trigger] v@[k]) == w@[k],
        decreases v.len() - i,
    {
        let c = v[i];
        let l = if 'A' <= c && c <= 'Z' { ((c as u8) + 32) as char } else { c };
        if l != w[i] {
            return false;
        }
        i += 1;
    }
    true
}

/// Parser state: the tokens and the position of the next one.
pub struct Parser {
    pub tokens: Vec<Token>,
    pub pos: usize,
}

impl Parser {
    pub open spec fn tv(&self) -> Seq<SToken> {
        token_views(self.tokens@)
    }

    /// The next token, if any.
    pub fn peek(&self) -> (r: Option<&Token>)
        ensures
            match r {
                Some(t) => self.pos < self.tokens@.len() && *t == self.tokens@[self.pos as int],
                None => self.pos >= self.tokens@.len(),
            },
    {
        if self.pos < self.tokens.len() {
            Some(&self.tokens[self.pos])
        } else {
            None
        }
    }

    /// Take the next token, if any.
    pub fn bump(&mut self) -> (r: Option<Token>)
        requires
            old(self).pos <= old(self).tokens@.len(),
        ensures
            final(self).tokens == old(self).tokens,
            match r {
                Some(t) => old(self).pos < old(self).tokens@.len() && t == old(self).tokens@[old(self).pos as int]
                    && final(self).pos == old(self).pos + 1,
                None => old(self).pos >= old(self).tokens@.len() && final(self).pos == old(self).pos,
            },
    {
        if self.pos < self.tokens.len() {
            let t = self.tokens[self.pos].clone();
            self.pos += 1;
            Some(t)
        } else {
            None
        }
    }

    /// Take the next token when it is `want`.
    pub fn eat(&mut self, want: &Token) -> (r: bool)
        requires
            old(self).pos <= old(self).tokens@.len(),
        ensures
            final(self).tokens == old(self).tokens,
            r == (old(self).pos < old(self).tokens@.len() && old(self).tokens@[old(self).pos as int].sv() == want.sv()),
            final(self).pos == if r { old(self).pos + 1 } else { old(self).pos as int },
    {
        if self.pos < self.tokens.len() && same_token(&self.tokens[self.pos], want) {
            self.pos += 1;
            true
        } else {
            false
        }
    }

    pub fn parse_expr(&mut self) -> (r: Option<Expr>)
        requires
            old(self).pos <= old(self).tokens@.len(),
        ensures
            final(self).tokens == old(self).tokens,
            parsed_as(r, p_expr(old(self).tv(), old(self).pos as int), final(self).pos, old(self).pos as int,
                old(self).tokens@.len()),
        decreases old(self).tokens@.len() - old(self).pos, 5int,
    {
        self.parse_or()
    }

    fn parse_or(&mut self) -> (r: Option<Expr>)
        requires
            old(self).pos <= old(self).tokens@.len(),
        ensures
            final(self).tokens == old(self).tokens,
            parsed_as(r, p_or(old(self).tv(), old(self).pos as int), final(self).pos, old(self).pos as int,
                old(self).tokens@.len()),
        decreases old(self).tokens@.len() - old(self).pos, 4int,
    {
        let ghost p = self.pos as int;
        let ghost t = self.tv();
        let lhs = match self.parse_and() {
            Some(e) => e,
            None => return None,
        };
        self.parse_or_rest(lhs, Ghost(p))
    }

    fn parse_or_rest(&mut self, lhs: Expr, Ghost(p0): Ghost<int>) -> (r: Option<Expr>)
        requires
            old(self).pos <= old(self).tokens@.len(),
            wf_expr(lhs.sv()),
            p0 < old(self).pos,
        ensures
            final(self).tokens == old(self).tokens,
            parsed_as(r, p_or_rest(old(self).tv(), lhs.sv(), old(self).pos as int), final(self).pos, p0,
                old(self).tokens@.len()),
        decreases old(self).tokens@.len() - old(self).pos, 6int,
    {
        let ghost q = self.pos as int;
        if self.eat(&Token::Or) {
            let rhs = match self.parse_and() {
                Some(e) => e,
                None => return None,
            };
            let e = Expr::Or(Box::new(lhs), Box::new(rhs));
            self.parse_or_rest(e, Ghost(p0))
        } else {
            Some(lhs)
        }
    }

    fn parse_and(&mut self) -> (r: Option<Expr>)
        requires
            old(self).pos <= old(self).tokens@.len(),
        ensures
            final(self).tokens == old(self).tokens,
            parsed_as(r, p_and(old(self).tv(), old(self).pos as int), final(self).pos, old(self).pos as int,
                old(self).tokens@.len()),
        decreases old(self).tokens@.len() - old(self).pos, 3int,
    {
        let ghost p = self.pos as int;
        let lhs = match self.parse_unary() {
            Some(e) => e,
            None => return None,
        };
        self.parse_and_rest(lhs, Ghost(p))
    }

    fn parse_and_rest(&mut self, lhs: Expr, Ghost(p0): Ghost<int>) -> (r: Option<Expr>)
        requires
            old(self).pos <= old(self).tokens@.len(),
            wf_expr(lhs.sv()),
            p0 < old(self).pos,
        ensures
            final(self).tokens == old(self).tokens,
            parsed_as(r, p_and_rest(old(self).tv(), lhs.sv(), old(self).pos as int), final(self).pos, p0,
                old(self).tokens@.len()),
        decreases old(self).tokens@.len() - old(self).pos, 7int,
    {
        if self.eat(&Token::And) {
            let rhs = match self.parse_unary() {
                Some(e) => e,
                None => return None,
            };
            let e = Expr::And(Box::new(lhs), Box::new(rhs));
            self.parse_and_rest(e, Ghost(p0))
        } else {
            Some(lhs)
        }
    }

    fn parse_unary(&mut self) -> (r: Option<Expr>)
        requires
            old(self).pos <= old(self).tokens@.len(),
        ensures
            final(self).tokens == old(self).tokens,
            parsed_as(r, p_unary(old(self).tv(), old(self).pos as int), final(self).pos, old(self).pos as int,
                old(self).tokens@.len()),
        decreases old(self).tokens@.len() - old(self).pos, 2int,
    {
        if self.pos >= self.tokens.len() {
            return None;
        }
        if self.eat(&Token::Not) {
            let inner = match self.parse_unary() {
                Some(e) => e,
                None => return None,
            };
            return Some(Expr::Not(Box::new(inner)));
        }
        self.parse_primary()
    }

    fn parse_compare_op(&mut self) -> (r: Option<CompareOp>)
        requires
            old(self).pos <= old(self).tokens@.len(),
        ensures
            final(self).tokens == old(self).tokens,
            r == compare_op_at(old(self).tv(), old(self).pos as int),
            final(self).pos == if r is Some { old(self).pos + 1 } else { old(self).pos as int },
    {
        if self.eat(&Token::Eq) {
            Some(CompareOp::Eq)
        } else if self.eat(&Token::Ne) {
            Some(CompareOp::Ne)
        } else if self.eat(&Token::Le) {
            Some(CompareOp::Le)
        } else if self.eat(&Token::Lt) {
            Some(CompareOp::Lt)
        } else if self.eat(&Token::Ge) {
            Some(CompareOp::Ge)
        } else if self.eat(&Token::Gt) {
            Some(CompareOp::Gt)
        } else {
            None
        }
    }

    fn parse_primary(&mut self) -> (r: Option<Expr>)
        requires
            old(self).pos <= old(self).tokens@.len(),
        ensures
            final(self).tokens == old(self).tokens,
            parsed_as(r, p_primary(old(self).tv(), old(self).pos as int), final(self).pos, old(self).pos as int,
                old(self).tokens@.len()),
        decreases old(self).tokens@.len() - old(self).pos, 1int,
    {
        if self.pos >= self.tokens.len() {
            return None;
        }
        if self.eat(&Token::LParen) {
            let inner = match self.parse_expr() {
                Some(e) => e,
                None => return None,
            };
            return if self.eat(&Token::RParen) {
                Some(inner)
            } else {
                None
            };
        }
        let lhs = match self.parse_value() {
            Some(v) => v,
            None => return None,
        };
        match self.parse_compare_op() {
            Some(op) => match self.parse_value() {
                Some(rhs) => Some(Expr::Compare(lhs, op, rhs)),
                None => None,
            },
            None => Some(Expr::Value(lhs)),
        }
    }

    fn parse_value(&mut self) -> (r: Option<ValueExpr>)
        requires
            old(self).pos <= old(self).tokens@.len(),
        ensures
            final(self).tokens == old(self).tokens,
            parsed_value_as(r, p_value(old(self).tv(), old(self).pos as int), final(self).pos, old(self).pos as int,
                old(self).tokens@.len()),
        decreases old(self).tokens@.len() - old(self).pos, 0int,
    {
        let ghost p = self.pos as int;
        match self.bump() {
            None => None,
            Some(Token::Str(s)) => Some(ValueExpr::String(s)),
            Some(Token::Ident(name)) => {
                if self.eat(&Token::LParen) {
                    if self.eat(&Token::RParen) {
                        let ghost nv = name@;
                        let r = ValueExpr::Call(name, Vec::new());
                        assert(args_sv(Seq::<Expr>::empty()) =~= Seq::<SExpr>::empty());
                        return Some(r);
                    }
                    let args: Vec<Expr> = Vec::new();
                    assert(args_sv(args@) =~= Seq::<SExpr>::empty());
                    self.parse_args(name, args, Ghost(p))
                } else if nocase_is(name.as_str(), &vec!['t', 'r', 'u', 'e']) {
                    Some(ValueExpr::Bool(true))
                } else if nocase_is(name.as_str(), &vec!['f', 'a', 'l', 's', 'e']) {
                    Some(ValueExpr::Bool(false))
                } else {
                    match parse_num(name.as_str()) {
                        Some(n) => Some(ValueExpr::Number(n)),
                        None => Some(ValueExpr::Path(name)),
                    }
                }
            },
            Some(_) => None,
        }
    }

    fn parse_args(&mut self, name: String, args: Vec<Expr>, Ghost(p0): Ghost<int>) -> (r: Option<ValueExpr>)
        requires
            old(self).pos <= old(self).tokens@.len(),
            wf_args(args_sv(args@)),
            p0 < old(self).pos,
        ensures
            final(self).tokens == old(self).tokens,
            parsed_value_as(r, p_args(old(self).tv(), old(self).pos as int, name@, args_sv(args@)), final(self).pos,
                p0, old(self).tokens@.len()),
        decreases old(self).tokens@.len() - old(self).pos, 8int,
    {
        let ghost orig = args@;
        let mut args = args;
        let ghost before = args_sv(args@);
        let arg = match self.parse_expr() {
            Some(e) => e,
            None => return None,
        };
        let ghost asv = arg.sv();
        args.push(arg);
        proof {
            assert(args@.drop_last() =~= orig);
            assert(args_sv(args@) == before.push(asv));
            assert(args_sv(args@).drop_last() =~= before);
            assert(wf_args(args_sv(args@)));
        }
        if self.eat(&Token::RParen) {
            return Some(ValueExpr::Call(name, args));
        }
        if self.eat(&Token::Comma) {
            return self.parse_args(name, args, Ghost(p0));
        }
        None
    }
}

/// Parse the token sequence as one expression that uses every token.
pub fn parse_tokens(tokens: Vec<Token>) -> (r: Option<Expr>)
    ensures
        match (r, parse_all(token_views(tokens@))) {
            (Some(e), Some(se)) => e.sv() == se && wf_expr(se),
            (None, None) => true,
            _ => false,
        },
{
    let n = tokens.len();
    let mut parser = Parser { tokens, pos: 0 };
    let ghost t = parser.tv();
    match parser.parse_expr() {
        Some(e) => if parser.pos == n {
            Some(e)
        } else {
            None
        },
        None => None,
    }
}

} // verus!
