use vstd::prelude::*;
use vstd::string::*;

use crate::ast::{
    ast_view, asts_view, lemma_asts_view_push, lemma_whens_view_push, whens_view, AstNode, BinOp,
    SAst, SWhen, WhenClause,
};
use crate::decimal::{spec_decimal_parse, Dec};
use crate::text::{concat2, concat3, concat4, owned};
use crate::tokens::{token_type_name, tokens_view, Token, TokenType, TokenView};
use crate::DsqlexError;

verus! {

// ── the grammar, stated ──
//
// program    := [SELECT] logical EOF
// logical    := comparison ( (AND|OR) comparison )*     -- one of AND / OR only
// comparison := arithmetic [ cmp-op arithmetic            -- no chaining
//                          | IS [NOT] (NULL|TRUE|FALSE)
//                          | [NOT] IN ( logical, ... )
//                          | [NOT] LIKE primary ]
// arithmetic := primary ( op primary )*                   -- one of +,- or *,/ only
// primary    := number | string | TRUE | FALSE | NULL | identifier
//             | ( logical ) | CASE ... END | function ( [logical, ...] )
//
// Each function below parses from token position `p` and gives the node
// and the position after it, or the error message. The clauses marked
// "never taken" guard positions for the termination argument only: every
// successful parse consumes at least one token (see the exec functions).

/// A parse result: the node and the next position, or an error message.
pub type ParseResult = Result<(SAst, int), Seq<char>>;

/// The type of the token at `p`, if any.
pub open spec fn tok_ty(ts: Seq<TokenView>, p: int) -> Option<TokenType> {
    if 0 <= p < ts.len() {
        Some(ts[p].ty)
    } else {
        None
    }
}

pub open spec fn expect_message(ty: TokenType, got: Option<TokenType>) -> Seq<char> {
    match got {
        Some(g) => "Expected "@ + token_type_name(ty) + ", got "@ + token_type_name(g),
        None => "Expected "@ + token_type_name(ty) + ", got end of input"@,
    }
}

/// Consumes a token of type `ty` at `p`.
pub open spec fn spec_expect(ts: Seq<TokenView>, p: int, ty: TokenType) -> Result<int, Seq<char>> {
    if tok_ty(ts, p) == Some(ty) {
        Ok(p + 1)
    } else {
        Err(expect_message(ty, tok_ty(ts, p)))
    }
}

pub open spec fn ambiguous_logical_message() -> Seq<char> {
    "Ambiguous expression: mix of AND and OR requires parentheses"@
}

pub open spec fn ambiguous_arith_message() -> Seq<char> {
    "Ambiguous expression: mix of +/- and */÷ requires parentheses"@
}

pub open spec fn is_comparison_token(t: Option<TokenType>) -> bool {
    t == Some(TokenType::Eq) || t == Some(TokenType::Neq) || t == Some(TokenType::Lt) || t == Some(
        TokenType::Gt,
    ) || t == Some(TokenType::Lte) || t == Some(TokenType::Gte)
}

pub open spec fn comparison_op(t: TokenType) -> BinOp {
    match t {
        TokenType::Eq => BinOp::Eq,
        TokenType::Neq => BinOp::Neq,
        TokenType::Lt => BinOp::Lt,
        TokenType::Gt => BinOp::Gt,
        TokenType::Lte => BinOp::Lte,
        _ => BinOp::Gte,
    }
}

/// The group of an arithmetic operator token: 0 for `+ -`, 1 for `* /`.
pub open spec fn arith_group(t: Option<TokenType>) -> Option<int> {
    match t {
        Some(TokenType::Plus) => Some(0),
        Some(TokenType::Minus) => Some(0),
        Some(TokenType::Multiply) => Some(1),
        Some(TokenType::Divide) => Some(1),
        _ => None,
    }
}

pub open spec fn arith_op(t: TokenType) -> BinOp {
    match t {
        TokenType::Plus => BinOp::Plus,
        TokenType::Minus => BinOp::Minus,
        TokenType::Multiply => BinOp::Multiply,
        _ => BinOp::Divide,
    }
}

pub open spec fn is_function_token(t: TokenType) -> bool {
    t == TokenType::FnUpper || t == TokenType::FnLower || t == TokenType::FnRound || t
        == TokenType::FnCoalesce || t == TokenType::FnAbs || t == TokenType::FnConcat || t
        == TokenType::FnEvent
}

/// The name a function call node gets for a function token.
pub open spec fn function_name(t: TokenType) -> Seq<char> {
    match t {
        TokenType::FnUpper => "UPPER"@,
        TokenType::FnLower => "LOWER"@,
        TokenType::FnRound => "ROUND"@,
        TokenType::FnCoalesce => "COALESCE"@,
        TokenType::FnAbs => "ABS"@,
        TokenType::FnConcat => "CONCAT"@,
        _ => "EVENT"@,
    }
}

pub open spec fn invalid_number_message(text: Seq<char>, err: Seq<char>) -> Seq<char> {
    "Invalid number '"@ + text + "': "@ + err
}

/// logical := comparison ( (AND|OR) comparison )*
pub open spec fn p_logical(ts: Seq<TokenView>, p: int) -> ParseResult
    decreases ts.len() - p, 9int,
{
    match p_comparison(ts, p) {
        Err(e) => Err(e),
        Ok((left, q)) => {
            if !(p <= q <= ts.len()) {
                Err(Seq::empty())  // never taken

            } else if tok_ty(ts, q) == Some(TokenType::And) || tok_ty(ts, q) == Some(TokenType::Or) {
                logical_loop(ts, q, left, tok_ty(ts, q).unwrap())
            } else {
                Ok((left, q))
            }
        },
    }
}

/// The `(op comparison)*` tail of `logical`, with `op` fixed by the first.
pub open spec fn logical_loop(ts: Seq<TokenView>, q: int, left: SAst, op: TokenType) -> ParseResult
    decreases ts.len() - q, 8int,
{
    if tok_ty(ts, q) == Some(op) {
        match p_comparison(ts, q + 1) {
            Err(e) => Err(e),
            Ok((right, r)) => {
                let node = SAst::BinaryOp {
                    op: if op == TokenType::And {
                        BinOp::And
                    } else {
                        BinOp::Or
                    },
                    left: Box::new(left),
                    right: Box::new(right),
                };
                if (tok_ty(ts, r) == Some(TokenType::And) && op == TokenType::Or) || (tok_ty(ts, r)
                    == Some(TokenType::Or) && op == TokenType::And) {
                    Err(ambiguous_logical_message())
                } else if !(q < r <= ts.len()) {
                    Err(Seq::empty())  // never taken

                } else {
                    logical_loop(ts, r, node, op)
                }
            },
        }
    } else {
        Ok((left, q))
    }
}

/// comparison := arithmetic [ ... ]
pub open spec fn p_comparison(ts: Seq<TokenView>, p: int) -> ParseResult
    decreases ts.len() - p, 7int,
{
    match p_arith(ts, p) {
        Err(e) => Err(e),
        Ok((left, q)) => {
            if !(p <= q <= ts.len()) {
                Err(Seq::empty())  // never taken

            } else {
                comparison_tail(ts, q, left)
            }
        },
    }
}

/// What follows the left operand of a comparison, from position `q`.
pub open spec fn comparison_tail(ts: Seq<TokenView>, q: int, left: SAst) -> ParseResult
    decreases ts.len() - q, 6int,
{
    if is_comparison_token(tok_ty(ts, q)) {
        match p_arith(ts, q + 1) {
            Err(e) => Err(e),
            Ok((right, r)) => {
                if is_comparison_token(tok_ty(ts, r)) {
                    Err("Cannot chain comparison operators"@)
                } else {
                    Ok(
                        (
                            SAst::BinaryOp {
                                op: comparison_op(tok_ty(ts, q).unwrap()),
                                left: Box::new(left),
                                right: Box::new(right),
                            },
                            r,
                        ),
                    )
                }
            },
        }
    } else if tok_ty(ts, q) == Some(TokenType::Is) {
        is_tail(ts, q, left)
    } else if tok_ty(ts, q) == Some(TokenType::Not) {
        not_tail(ts, q, left)
    } else if tok_ty(ts, q) == Some(TokenType::In) {
        match p_in_list(ts, q + 1) {
            Err(e) => Err(e),
            Ok((items, r)) => Ok((SAst::InExpr { expr: Box::new(left), items }, r)),
        }
    } else if tok_ty(ts, q) == Some(TokenType::Like) {
        match p_primary(ts, q + 1) {
            Err(e) => Err(e),
            Ok((pattern, r)) => Ok(
                (SAst::LikeExpr { expr: Box::new(left), pattern: Box::new(pattern) }, r),
            ),
        }
    } else {
        Ok((left, q))
    }
}

/// `IS [NOT] (NULL|TRUE|FALSE)` after the left operand (the `IS` at `q`).
pub open spec fn is_tail(ts: Seq<TokenView>, q: int, left: SAst) -> ParseResult {
    let negated = tok_ty(ts, q + 1) == Some(TokenType::Not);
    let q2 = if negated {
        q + 2
    } else {
        q + 1
    };
    let right = if tok_ty(ts, q2) == Some(TokenType::Null) {
        Some(SAst::NullLit)
    } else if tok_ty(ts, q2) == Some(TokenType::True) {
        Some(SAst::BoolLit(true))
    } else if tok_ty(ts, q2) == Some(TokenType::False) {
        Some(SAst::BoolLit(false))
    } else {
        None
    };
    match right {
        None => Err("Expected NULL, TRUE, or FALSE after IS [NOT]"@),
        Some(rt) => Ok(
            (
                SAst::BinaryOp {
                    op: if negated {
                        BinOp::Neq
                    } else {
                        BinOp::Eq
                    },
                    left: Box::new(left),
                    right: Box::new(rt),
                },
                q2 + 1,
            ),
        ),
    }
}

/// `NOT IN (...)` or `NOT LIKE primary` after the left operand (the `NOT` at `q`).
pub open spec fn not_tail(ts: Seq<TokenView>, q: int, left: SAst) -> ParseResult
    decreases ts.len() - q, 5int,
{
    if tok_ty(ts, q + 1) == Some(TokenType::In) {
        match p_in_list(ts, q + 2) {
            Err(e) => Err(e),
            Ok((items, r)) => Ok(
                (SAst::NotInExpr { expr: Box::new(left), items }, r),
            ),
        }
    } else if tok_ty(ts, q + 1) == Some(TokenType::Like) {
        match p_primary(ts, q + 2) {
            Err(e) => Err(e),
            Ok((pattern, r)) => Ok(
                (SAst::NotLikeExpr { expr: Box::new(left), pattern: Box::new(pattern) }, r),
            ),
        }
    } else {
        Err("Expected IN or LIKE after NOT"@)
    }
}

/// `( logical, ... )` after IN: the items and the next position.
pub open spec fn p_in_list(ts: Seq<TokenView>, p: int) -> Result<(Seq<SAst>, int), Seq<char>>
    decreases ts.len() - p, 2int,
{
    match spec_expect(ts, p, TokenType::LParen) {
        Err(e) => Err(e),
        Ok(p1) => match p_logical(ts, p1) {
            Err(e) => Err(e),
            Ok((first, q)) => {
                if !(p1 <= q <= ts.len()) {
                    Err(Seq::empty())  // never taken

                } else {
                    in_list_loop(ts, q, seq![first])
                }
            },
        },
    }
}

pub open spec fn in_list_loop(ts: Seq<TokenView>, q: int, items: Seq<SAst>) -> Result<
    (Seq<SAst>, int),
    Seq<char>,
>
    decreases ts.len() - q, 1int,
{
    if tok_ty(ts, q) == Some(TokenType::Comma) {
        match p_logical(ts, q + 1) {
            Err(e) => Err(e),
            Ok((item, r)) => {
                if !(q < r <= ts.len()) {
                    Err(Seq::empty())  // never taken

                } else {
                    in_list_loop(ts, r, items.push(item))
                }
            },
        }
    } else {
        match spec_expect(ts, q, TokenType::RParen) {
            Err(e) => Err(e),
            Ok(r) => Ok((items, r)),
        }
    }
}

/// arithmetic := primary ( op primary )*
pub open spec fn p_arith(ts: Seq<TokenView>, p: int) -> ParseResult
    decreases ts.len() - p, 6int,
{
    match p_primary(ts, p) {
        Err(e) => Err(e),
        Ok((left, q)) => {
            if !(p <= q <= ts.len()) {
                Err(Seq::empty())  // never taken

            } else {
                match arith_group(tok_ty(ts, q)) {
                    None => Ok((left, q)),
                    Some(g) => arith_loop(ts, q, left, g),
                }
            }
        },
    }
}

/// The `(op primary)*` tail of `arithmetic`, all operators of group `g`.
pub open spec fn arith_loop(ts: Seq<TokenView>, q: int, left: SAst, g: int) -> ParseResult
    decreases ts.len() - q, 5int,
{
    match arith_group(tok_ty(ts, q)) {
        None => Ok((left, q)),
        Some(g2) => {
            if g2 != g {
                Err(ambiguous_arith_message())
            } else {
                match p_primary(ts, q + 1) {
                    Err(e) => Err(e),
                    Ok((right, r)) => {
                        let node = SAst::BinaryOp {
                            op: arith_op(tok_ty(ts, q).unwrap()),
                            left: Box::new(left),
                            right: Box::new(right),
                        };
                        if !(q < r <= ts.len()) {
                            Err(Seq::empty())  // never taken

                        } else {
                            arith_loop(ts, r, node, g)
                        }
                    },
                }
            }
        },
    }
}

/// primary := literal | identifier | ( logical ) | CASE | function call
pub open spec fn p_primary(ts: Seq<TokenView>, p: int) -> ParseResult
    decreases ts.len() - p, 4int,
{
    match tok_ty(ts, p) {
        None => Err("Unexpected end of input"@),
        Some(t) => {
            if t == TokenType::Number {
                match spec_decimal_parse(ts[p].text) {
                    Ok(d) => Ok((SAst::NumberLit(d), p + 1)),
                    Err(e) => Err(invalid_number_message(ts[p].text, e)),
                }
            } else if t == TokenType::String {
                Ok((SAst::StringLit(ts[p].text), p + 1))
            } else if t == TokenType::True {
                Ok((SAst::BoolLit(true), p + 1))
            } else if t == TokenType::False {
                Ok((SAst::BoolLit(false), p + 1))
            } else if t == TokenType::Null {
                Ok((SAst::NullLit, p + 1))
            } else if t == TokenType::Identifier {
                Ok((SAst::Identifier(ts[p].text), p + 1))
            } else if t == TokenType::LParen {
                match p_logical(ts, p + 1) {
                    Err(e) => Err(e),
                    Ok((e, q)) => match spec_expect(ts, q, TokenType::RParen) {
                        Err(m) => Err(m),
                        Ok(r) => Ok((e, r)),
                    },
                }
            } else if t == TokenType::Case {
                p_case(ts, p)
            } else if is_function_token(t) {
                p_function(ts, p)
            } else {
                Err("Unexpected token: "@ + token_type_name(t))
            }
        },
    }
}

/// CASE (WHEN logical THEN logical)+ [ELSE logical] END
pub open spec fn p_case(ts: Seq<TokenView>, p: int) -> ParseResult
    decreases ts.len() - p, 3int,
{
    match spec_expect(ts, p, TokenType::Case) {
        Err(e) => Err(e),
        Ok(p1) => case_loop(ts, p1, Seq::empty()),
    }
}

pub open spec fn case_loop(ts: Seq<TokenView>, q: int, whens: Seq<SWhen>) -> ParseResult
    decreases ts.len() - q, 2int,
{
    if tok_ty(ts, q) == Some(TokenType::When) {
        match p_logical(ts, q + 1) {
            Err(e) => Err(e),
            Ok((cond, r)) => {
                if !(q < r <= ts.len()) {
                    Err(Seq::empty())  // never taken

                } else {
                    match spec_expect(ts, r, TokenType::Then) {
                        Err(e) => Err(e),
                        Ok(r1) => match p_logical(ts, r1) {
                            Err(e) => Err(e),
                            Ok((res, s)) => {
                                if !(q < s <= ts.len()) {
                                    Err(Seq::empty())  // never taken

                                } else {
                                    case_loop(
                                        ts,
                                        s,
                                        whens.push(SWhen { condition: cond, result: res }),
                                    )
                                }
                            },
                        },
                    }
                }
            },
        }
    } else if whens.len() == 0 {
        Err("CASE requires at least one WHEN clause"@)
    } else if tok_ty(ts, q) == Some(TokenType::Else) {
        match p_logical(ts, q + 1) {
            Err(e) => Err(e),
            Ok((e, r)) => match spec_expect(ts, r, TokenType::End) {
                Err(m) => Err(m),
                Ok(r1) => Ok((SAst::CaseExpr { whens, else_clause: Some(Box::new(e)) }, r1)),
            },
        }
    } else {
        match spec_expect(ts, q, TokenType::End) {
            Err(m) => Err(m),
            Ok(r1) => Ok((SAst::CaseExpr { whens, else_clause: None }, r1)),
        }
    }
}

/// function ( [logical (, logical)*] )
pub open spec fn p_function(ts: Seq<TokenView>, p: int) -> ParseResult
    decreases ts.len() - p, 3int,
{
    let name = function_name(tok_ty(ts, p).unwrap());
    match spec_expect(ts, p + 1, TokenType::LParen) {
        Err(e) => Err(e),
        Ok(p2) => match function_args(ts, p2) {
            Err(e) => Err(e),
            Ok((args, q)) => match spec_expect(ts, q, TokenType::RParen) {
                Err(e) => Err(e),
                Ok(r) => Ok((SAst::FunctionCall { name, args }, r)),
            },
        },
    }
}

/// The arguments of a call, from just after its `(` up to its `)`.
pub open spec fn function_args(ts: Seq<TokenView>, p: int) -> Result<(Seq<SAst>, int), Seq<char>>
    decreases ts.len() - p, 10int,
{
    if tok_ty(ts, p) != Some(TokenType::RParen) {
        match p_logical(ts, p) {
            Err(e) => Err(e),
            Ok((first, q)) => {
                if !(p <= q <= ts.len()) {
                    Err(Seq::empty())  // never taken

                } else {
                    args_loop(ts, q, seq![first])
                }
            },
        }
    } else {
        Ok((Seq::empty(), p))
    }
}

pub open spec fn args_loop(ts: Seq<TokenView>, q: int, args: Seq<SAst>) -> Result<
    (Seq<SAst>, int),
    Seq<char>,
>
    decreases ts.len() - q, 2int,
{
    if tok_ty(ts, q) == Some(TokenType::Comma) {
        match p_logical(ts, q + 1) {
            Err(e) => Err(e),
            Ok((a, r)) => {
                if !(q < r <= ts.len()) {
                    Err(Seq::empty())  // never taken

                } else {
                    args_loop(ts, r, args.push(a))
                }
            },
        }
    } else {
        Ok((args, q))
    }
}

/// program := [SELECT] logical EOF, as a `Select` node.
pub open spec fn p_program(ts: Seq<TokenView>) -> Result<SAst, Seq<char>> {
    let p = if tok_ty(ts, 0) == Some(TokenType::Select) {
        1int
    } else {
        0int
    };
    match p_logical(ts, p) {
        Err(e) => Err(e),
        Ok((e, q)) => {
            if q < ts.len() {
                Err("Unexpected token after expression: "@ + token_type_name(ts[q].ty))
            } else {
                Ok(SAst::Select(Box::new(e)))
            }
        },
    }
}

/// The expression a token sequence stands for, or the error message.
pub open spec fn spec_parse(ts: Seq<TokenView>) -> Result<SAst, Seq<char>> {
    if ts.len() == 0 {
        Err("Empty expression"@)
    } else {
        p_program(ts)
    }
}

// ── the parser ──

/// The model of an exec parse outcome ending at position `pos`.
pub open spec fn outcome(r: Result<AstNode, DsqlexError>, pos: int) -> ParseResult {
    match r {
        Ok(n) => Ok((n@, pos)),
        Err(e) => Err(e@),
    }
}

pub open spec fn list_outcome(r: Result<Vec<AstNode>, DsqlexError>, pos: int) -> Result<
    (Seq<SAst>, int),
    Seq<char>,
> {
    match r {
        Ok(v) => Ok((asts_view(v@), pos)),
        Err(e) => Err(e@),
    }
}

/// The model of a parse result.
pub open spec fn ast_result_view(r: Result<AstNode, DsqlexError>) -> Result<SAst, Seq<char>> {
    match r {
        Ok(n) => Ok(n@),
        Err(e) => Err(e@),
    }
}

struct Parser {
    tokens: Vec<Token>,
    pos: usize,
}

impl Parser {
    spec fn ts(&self) -> Seq<TokenView> {
        tokens_view(self.tokens@)
    }

    fn new(tokens: Vec<Token>) -> (r: Self)
        ensures
            r.tokens@ == tokens@,
            r.pos == 0,
    {
        Parser { tokens, pos: 0 }
    }

    fn peek_type(&self) -> (r: Option<TokenType>)
        ensures
            r == tok_ty(self.ts(), self.pos as int),
    {
        if self.pos < self.tokens.len() {
            Some(self.tokens[self.pos].ty)
        } else {
            None
        }
    }

    fn peek_is(&self, ty: TokenType) -> (r: bool)
        ensures
            r == (tok_ty(self.ts(), self.pos as int) == Some(ty)),
    {
        match self.peek_type() {
            Some(t) => t == ty,
            None => false,
        }
    }

    fn advance(&mut self) -> (r: Option<Token>)
        ensures
            final(self).tokens@ == old(self).tokens@,
            old(self).pos < old(self).tokens.len() ==> (final(self).pos == old(self).pos + 1
                && (r matches Some(t) && t@ == old(self).ts()[old(self).pos as int])),
            old(self).pos >= old(self).tokens.len() ==> final(self).pos == old(self).pos
                && r is None,
    {
        if self.pos < self.tokens.len() {
            let tok = self.tokens[self.pos].duplicate();
            self.pos += 1;
            Some(tok)
        } else {
            None
        }
    }

    fn expect(&mut self, ty: TokenType) -> (r: Result<Token, DsqlexError>)
        requires
            old(self).pos <= old(self).tokens.len(),
        ensures
            final(self).tokens@ == old(self).tokens@,
            old(self).pos <= final(self).pos <= final(self).tokens.len(),
            match spec_expect(old(self).ts(), old(self).pos as int, ty) {
                Ok(q) => r is Ok && final(self).pos == q,
                Err(m) => r matches Err(e) && e@ == m,
            },
    {
        match self.advance() {
            Some(tok) => {
                if tok.ty == ty {
                    Ok(tok)
                } else {
                    Err(DsqlexError(concat4("Expected ", ty.name(), ", got ", tok.ty.name())))
                }
            },
            None => Err(DsqlexError(concat3("Expected ", ty.name(), ", got end of input"))),
        }
    }

    fn at_end(&self) -> (r: bool)
        ensures
            r == (self.pos >= self.tokens.len()),
    {
        self.pos >= self.tokens.len()
    }

    fn parse_program(&mut self) -> (r: Result<AstNode, DsqlexError>)
        requires
            old(self).pos == 0,
        ensures
            ast_result_view(r) == p_program(old(self).ts()),
    {
        let ghost ts = self.ts();
        if self.peek_is(TokenType::Select) {
            self.advance();
        }
        let expr = self.parse_logical()?;
        if !self.at_end() {
            let ty = self.peek_type().unwrap();
            return Err(DsqlexError(concat2("Unexpected token after expression: ", ty.name())));
        }
        Ok(AstNode::Select(Box::new(expr)))
    }

    fn parse_logical(&mut self) -> (r: Result<AstNode, DsqlexError>)
        requires
            old(self).pos <= old(self).tokens.len(),
        ensures
            final(self).tokens@ == old(self).tokens@,
            old(self).pos <= final(self).pos <= final(self).tokens.len(),
            r is Ok ==> old(self).pos < final(self).pos,
            outcome(r, final(self).pos as int) == p_logical(old(self).ts(), old(self).pos as int),
        decreases old(self).tokens.len() - old(self).pos, 9int,
    {
        let ghost ts = self.ts();
        let ghost toks = self.tokens@;
        let ghost p0 = self.pos as int;
        let mut left = self.parse_comparison()?;
        let is_and = self.peek_is(TokenType::And);
        if is_and || self.peek_is(TokenType::Or) {
            let expected = if is_and {
                TokenType::And
            } else {
                TokenType::Or
            };
            while self.peek_is(expected)
                invariant
                    self.tokens@ == toks,
                    toks == old(self).tokens@,
                    p0 == old(self).pos,
                    ts == tokens_view(toks),
                    p0 < self.pos <= self.tokens.len(),
                    p_logical(ts, p0) == logical_loop(ts, self.pos as int, left@, expected),
                decreases self.tokens.len() - self.pos,
            {
                self.advance();
                let right = self.parse_comparison()?;
                let op = if expected == TokenType::And {
                    BinOp::And
                } else {
                    BinOp::Or
                };
                left = AstNode::BinaryOp { op, left: Box::new(left), right: Box::new(right) };
                if (self.peek_is(TokenType::And) && expected == TokenType::Or) || (self.peek_is(
                    TokenType::Or,
                ) && expected == TokenType::And) {
                    return Err(
                        DsqlexError(
                            owned("Ambiguous expression: mix of AND and OR requires parentheses"),
                        ),
                    );
                }
            }
        }
        Ok(left)
    }

    fn peek_comparison(&self) -> (r: Option<BinOp>)
        ensures
            is_comparison_token(tok_ty(self.ts(), self.pos as int)) <==> r is Some,
            r matches Some(op) ==> op == comparison_op(tok_ty(self.ts(), self.pos as int).unwrap()),
    {
        match self.peek_type() {
            Some(TokenType::Eq) => Some(BinOp::Eq),
            Some(TokenType::Neq) => Some(BinOp::Neq),
            Some(TokenType::Lt) => Some(BinOp::Lt),
            Some(TokenType::Gt) => Some(BinOp::Gt),
            Some(TokenType::Lte) => Some(BinOp::Lte),
            Some(TokenType::Gte) => Some(BinOp::Gte),
            _ => None,
        }
    }

    fn parse_comparison(&mut self) -> (r: Result<AstNode, DsqlexError>)
        requires
            old(self).pos <= old(self).tokens.len(),
        ensures
            final(self).tokens@ == old(self).tokens@,
            old(self).pos <= final(self).pos <= final(self).tokens.len(),
            r is Ok ==> old(self).pos < final(self).pos,
            outcome(r, final(self).pos as int) == p_comparison(old(self).ts(), old(self).pos as int),
        decreases old(self).tokens.len() - old(self).pos, 7int,
    {
        let left = self.parse_arithmetic()?;
        self.parse_comparison_tail(left)
    }

    fn parse_comparison_tail(&mut self, left: AstNode) -> (r: Result<AstNode, DsqlexError>)
        requires
            old(self).pos <= old(self).tokens.len(),
        ensures
            final(self).tokens@ == old(self).tokens@,
            old(self).pos <= final(self).pos <= final(self).tokens.len(),
            r is Ok ==> old(self).pos <= final(self).pos,
            outcome(r, final(self).pos as int) == comparison_tail(
                old(self).ts(),
                old(self).pos as int,
                left@,
            ),
        decreases old(self).tokens.len() - old(self).pos, 6int,
    {
        let ghost ts = self.ts();
        let ghost q = self.pos as int;
        match self.peek_comparison() {
            Some(op) => {
                self.advance();
                let right = self.parse_arithmetic()?;
                if self.peek_comparison().is_some() {
                    return Err(DsqlexError(owned("Cannot chain comparison operators")));
                }
                return Ok(AstNode::BinaryOp { op, left: Box::new(left), right: Box::new(right) });
            },
            None => {},
        }
        if self.peek_is(TokenType::Is) {
            self.parse_is_tail(left)
        } else if self.peek_is(TokenType::Not) {
            self.parse_not_tail(left)
        } else if self.peek_is(TokenType::In) {
            self.advance();
            let items = self.parse_in_list()?;
            Ok(AstNode::InExpr { expr: Box::new(left), items })
        } else if self.peek_is(TokenType::Like) {
            self.advance();
            let pattern = self.parse_primary()?;
            Ok(AstNode::LikeExpr { expr: Box::new(left), pattern: Box::new(pattern) })
        } else {
            assert(outcome(Ok(left), self.pos as int) == comparison_tail(ts, q, left@));
            Ok(left)
        }
    }

    fn parse_is_tail(&mut self, left: AstNode) -> (r: Result<AstNode, DsqlexError>)
        requires
            old(self).pos <= old(self).tokens.len(),
            tok_ty(old(self).ts(), old(self).pos as int) == Some(TokenType::Is),
        ensures
            final(self).tokens@ == old(self).tokens@,
            old(self).pos <= final(self).pos <= final(self).tokens.len(),
            outcome(r, final(self).pos as int) == is_tail(
                old(self).ts(),
                old(self).pos as int,
                left@,
            ),
    {
        let ghost ts = self.ts();
        let ghost q = self.pos as int;
        self.advance();
        let negated = if self.peek_is(TokenType::Not) {
            self.advance();
            true
        } else {
            false
        };
        let right = if self.peek_is(TokenType::Null) {
            self.advance();
            AstNode::NullLit
        } else if self.peek_is(TokenType::True) {
            self.advance();
            AstNode::BoolLit(true)
        } else if self.peek_is(TokenType::False) {
            self.advance();
            AstNode::BoolLit(false)
        } else {
            return Err(DsqlexError(owned("Expected NULL, TRUE, or FALSE after IS [NOT]")));
        };
        let op = if negated {
            BinOp::Neq
        } else {
            BinOp::Eq
        };
        let ghost lv = left@;
        let node = AstNode::BinaryOp { op, left: Box::new(left), right: Box::new(right) };
        assert(self.ts() == ts);
        assert(node@ == SAst::BinaryOp { op, left: Box::new(lv), right: Box::new(right@) });
        assert(is_tail(ts, q, lv) is Ok);
        assert(is_tail(ts, q, lv) == Ok::<(SAst, int), Seq<char>>((node@, self.pos as int)));
        Ok(node)
    }

    fn parse_not_tail(&mut self, left: AstNode) -> (r: Result<AstNode, DsqlexError>)
        requires
            old(self).pos <= old(self).tokens.len(),
            tok_ty(old(self).ts(), old(self).pos as int) == Some(TokenType::Not),
        ensures
            final(self).tokens@ == old(self).tokens@,
            old(self).pos <= final(self).pos <= final(self).tokens.len(),
            outcome(r, final(self).pos as int) == not_tail(
                old(self).ts(),
                old(self).pos as int,
                left@,
            ),
        decreases old(self).tokens.len() - old(self).pos, 5int,
    {
        let ghost ts = self.ts();
        let ghost q = self.pos as int;
        self.advance();
        if self.peek_is(TokenType::In) {
            self.advance();
            let items = self.parse_in_list()?;
            Ok(AstNode::NotInExpr { expr: Box::new(left), items })
        } else if self.peek_is(TokenType::Like) {
            self.advance();
            let pattern = self.parse_primary()?;
            Ok(AstNode::NotLikeExpr { expr: Box::new(left), pattern: Box::new(pattern) })
        } else {
            Err(DsqlexError(owned("Expected IN or LIKE after NOT")))
        }
    }

    fn parse_in_list(&mut self) -> (r: Result<Vec<AstNode>, DsqlexError>)
        requires
            old(self).pos <= old(self).tokens.len(),
        ensures
            final(self).tokens@ == old(self).tokens@,
            old(self).pos <= final(self).pos <= final(self).tokens.len(),
            r is Ok ==> old(self).pos < final(self).pos,
            list_outcome(r, final(self).pos as int) == p_in_list(
                old(self).ts(),
                old(self).pos as int,
            ),
        decreases old(self).tokens.len() - old(self).pos, 2int,
    {
        let ghost ts = self.ts();
        let ghost toks = self.tokens@;
        let ghost p0 = self.pos as int;
        self.expect(TokenType::LParen)?;
        let first = self.parse_logical()?;
        let mut items: Vec<AstNode> = Vec::new();
        items.push(first);
        proof {
            lemma_asts_view_push(Seq::empty(), first);
            assert(Seq::<AstNode>::empty().push(first) =~= items@);
            assert(asts_view(Seq::<AstNode>::empty()) =~= Seq::<SAst>::empty());
            assert(seq![first@] =~= Seq::<SAst>::empty().push(first@));
        }
        while self.peek_is(TokenType::Comma)
            invariant
                self.tokens@ == toks,
                toks == old(self).tokens@,
                p0 == old(self).pos,
                ts == tokens_view(toks),
                p0 < self.pos <= self.tokens.len(),
                p_in_list(ts, p0) == in_list_loop(ts, self.pos as int, asts_view(items@)),
            decreases self.tokens.len() - self.pos,
        {
            self.advance();
            let item = self.parse_logical()?;
            proof {
                lemma_asts_view_push(items@, item);
            }
            items.push(item);
        }
        self.expect(TokenType::RParen)?;
        Ok(items)
    }

    fn peek_group(&self) -> (r: Option<u8>)
        ensures
            arith_group(tok_ty(self.ts(), self.pos as int)) == match r {
                Some(g) => Some(g as int),
                None => None::<int>,
            },
    {
        match self.peek_type() {
            Some(TokenType::Plus) => Some(0),
            Some(TokenType::Minus) => Some(0),
            Some(TokenType::Multiply) => Some(1),
            Some(TokenType::Divide) => Some(1),
            _ => None,
        }
    }

    fn parse_arithmetic(&mut self) -> (r: Result<AstNode, DsqlexError>)
        requires
            old(self).pos <= old(self).tokens.len(),
        ensures
            final(self).tokens@ == old(self).tokens@,
            old(self).pos <= final(self).pos <= final(self).tokens.len(),
            r is Ok ==> old(self).pos < final(self).pos,
            outcome(r, final(self).pos as int) == p_arith(old(self).ts(), old(self).pos as int),
        decreases old(self).tokens.len() - old(self).pos, 6int,
    {
        let ghost ts = self.ts();
        let ghost toks = self.tokens@;
        let ghost p0 = self.pos as int;
        let mut left = self.parse_primary()?;
        match self.peek_group() {
            None => {},
            Some(expected) => {
                while self.peek_group().is_some()
                    invariant
                        self.tokens@ == toks,
                        toks == old(self).tokens@,
                        p0 == old(self).pos,
                        ts == tokens_view(toks),
                        p0 < self.pos <= self.tokens.len(),
                        p_arith(ts, p0) == arith_loop(ts, self.pos as int, left@, expected as int),
                    decreases self.tokens.len() - self.pos,
                {
                    let g = self.peek_group().unwrap();
                    if g != expected {
                        return Err(
                            DsqlexError(
                                owned(
                                    "Ambiguous expression: mix of +/- and */÷ requires parentheses",
                                ),
                            ),
                        );
                    }
                    let op_tok = self.advance().unwrap();
                    let right = self.parse_primary()?;
                    let op = match op_tok.ty {
                        TokenType::Plus => BinOp::Plus,
                        TokenType::Minus => BinOp::Minus,
                        TokenType::Multiply => BinOp::Multiply,
                        _ => BinOp::Divide,
                    };
                    left = AstNode::BinaryOp { op, left: Box::new(left), right: Box::new(right) };
                }
            },
        }
        Ok(left)
    }

    fn parse_primary(&mut self) -> (r: Result<AstNode, DsqlexError>)
        requires
            old(self).pos <= old(self).tokens.len(),
        ensures
            final(self).tokens@ == old(self).tokens@,
            old(self).pos <= final(self).pos <= final(self).tokens.len(),
            r is Ok ==> old(self).pos < final(self).pos,
            outcome(r, final(self).pos as int) == p_primary(old(self).ts(), old(self).pos as int),
        decreases old(self).tokens.len() - old(self).pos, 4int,
    {
        match self.peek_type() {
            Some(TokenType::Number) => {
                let tok = self.advance().unwrap();
                match Dec::parse_text(tok.text.as_str()) {
                    Ok(d) => Ok(AstNode::NumberLit(d)),
                    Err(e) => Err(
                        DsqlexError(
                            concat4("Invalid number '", tok.text.as_str(), "': ", e.as_str()),
                        ),
                    ),
                }
            },
            Some(TokenType::String) => {
                let tok = self.advance().unwrap();
                Ok(AstNode::StringLit(tok.text))
            },
            Some(TokenType::True) => {
                self.advance();
                Ok(AstNode::BoolLit(true))
            },
            Some(TokenType::False) => {
                self.advance();
                Ok(AstNode::BoolLit(false))
            },
            Some(TokenType::Null) => {
                self.advance();
                Ok(AstNode::NullLit)
            },
            Some(TokenType::Identifier) => {
                let tok = self.advance().unwrap();
                Ok(AstNode::Identifier(tok.text))
            },
            Some(TokenType::LParen) => {
                self.advance();
                let expr = self.parse_logical()?;
                self.expect(TokenType::RParen)?;
                Ok(expr)
            },
            Some(TokenType::Case) => self.parse_case(),
            Some(TokenType::FnUpper) | Some(TokenType::FnLower) | Some(TokenType::FnRound) | Some(
                TokenType::FnCoalesce,
            ) | Some(TokenType::FnAbs) | Some(TokenType::FnConcat) | Some(TokenType::FnEvent) => {
                self.parse_function_call()
            },
            Some(ty) => Err(DsqlexError(concat2("Unexpected token: ", ty.name()))),
            None => Err(DsqlexError(owned("Unexpected end of input"))),
        }
    }

    fn parse_case(&mut self) -> (r: Result<AstNode, DsqlexError>)
        requires
            old(self).pos <= old(self).tokens.len(),
        ensures
            final(self).tokens@ == old(self).tokens@,
            old(self).pos <= final(self).pos <= final(self).tokens.len(),
            r is Ok ==> old(self).pos < final(self).pos,
            outcome(r, final(self).pos as int) == p_case(old(self).ts(), old(self).pos as int),
        decreases old(self).tokens.len() - old(self).pos, 3int,
    {
        let ghost ts = self.ts();
        let ghost toks = self.tokens@;
        let ghost p0 = self.pos as int;
        self.expect(TokenType::Case)?;
        let mut whens: Vec<WhenClause> = Vec::new();
        proof {
            assert(whens_view(whens@) =~= Seq::<SWhen>::empty());
        }
        while self.peek_is(TokenType::When)
            invariant
                self.tokens@ == toks,
                toks == old(self).tokens@,
                p0 == old(self).pos,
                ts == tokens_view(toks),
                p0 < self.pos <= self.tokens.len(),
                p_case(ts, p0) == case_loop(ts, self.pos as int, whens_view(whens@)),
            decreases self.tokens.len() - self.pos,
        {
            self.advance();
            let condition = self.parse_logical()?;
            self.expect(TokenType::Then)?;
            let result = self.parse_logical()?;
            let w = WhenClause { condition: Box::new(condition), result: Box::new(result) };
            proof {
                lemma_whens_view_push(whens@, w);
            }
            whens.push(w);
        }
        if whens.len() == 0 {
            return Err(DsqlexError(owned("CASE requires at least one WHEN clause")));
        }
        let else_clause = if self.peek_is(TokenType::Else) {
            self.advance();
            Some(Box::new(self.parse_logical()?))
        } else {
            None
        };
        self.expect(TokenType::End)?;
        Ok(AstNode::CaseExpr { whens, else_clause })
    }

    fn function_name_of(ty: TokenType) -> (r: String)
        ensures
            r@ == function_name(ty),
    {
        match ty {
            TokenType::FnUpper => owned("UPPER"),
            TokenType::FnLower => owned("LOWER"),
            TokenType::FnRound => owned("ROUND"),
            TokenType::FnCoalesce => owned("COALESCE"),
            TokenType::FnAbs => owned("ABS"),
            TokenType::FnConcat => owned("CONCAT"),
            _ => owned("EVENT"),
        }
    }

    fn parse_function_call(&mut self) -> (r: Result<AstNode, DsqlexError>)
        requires
            old(self).pos < old(self).tokens.len(),
        ensures
            final(self).tokens@ == old(self).tokens@,
            old(self).pos <= final(self).pos <= final(self).tokens.len(),
            r is Ok ==> old(self).pos < final(self).pos,
            outcome(r, final(self).pos as int) == p_function(old(self).ts(), old(self).pos as int),
        decreases old(self).tokens.len() - old(self).pos, 3int,
    {
        let ghost ts = self.ts();
        let ghost toks = self.tokens@;
        let ghost p0 = self.pos as int;
        let tok = self.advance().unwrap();
        let name = Self::function_name_of(tok.ty);
        self.expect(TokenType::LParen)?;
        let ghost p2 = self.pos as int;
        let mut args: Vec<AstNode> = Vec::new();
        if !self.peek_is(TokenType::RParen) {
            let first = self.parse_logical()?;
            args.push(first);
            proof {
                lemma_asts_view_push(Seq::empty(), first);
                assert(Seq::<AstNode>::empty().push(first) =~= args@);
                assert(asts_view(Seq::<AstNode>::empty()) =~= Seq::<SAst>::empty());
                assert(seq![first@] =~= Seq::<SAst>::empty().push(first@));
            }
            while self.peek_is(TokenType::Comma)
                invariant
                    self.tokens@ == toks,
                    toks == old(self).tokens@,
                    p0 == old(self).pos,
                    ts == tokens_view(toks),
                    p0 < p2 < self.pos <= self.tokens.len(),
                    spec_expect(ts, p0 + 1, TokenType::LParen) == Ok::<int, Seq<char>>(p2),
                    function_args(ts, p2) == args_loop(ts, self.pos as int, asts_view(args@)),
                decreases self.tokens.len() - self.pos,
            {
                self.advance();
                let a = self.parse_logical()?;
                proof {
                    lemma_asts_view_push(args@, a);
                }
                args.push(a);
            }
        }
        proof {
            if args@.len() == 0 {
                assert(asts_view(args@) =~= Seq::<SAst>::empty());
            }
        }
        assert(function_args(ts, p2) == Ok::<(Seq<SAst>, int), Seq<char>>(
            (asts_view(args@), self.pos as int),
        ));
        self.expect(TokenType::RParen)?;
        Ok(AstNode::FunctionCall { name, args })
    }
}

/// Parses a token sequence into an expression: `[SELECT] logical` and
/// nothing after it. Mixing AND with OR, or `+ -` with `* /`, at one level
/// needs parentheses; comparisons do not chain.
pub fn parse(tokens: Vec<Token>) -> (r: Result<AstNode, DsqlexError>)
    ensures
        ast_result_view(r) == spec_parse(tokens_view(tokens@)),
{
    let mut parser = Parser::new(tokens);
    if parser.at_end() {
        return Err(DsqlexError(owned("Empty expression")));
    }
    parser.parse_program()
}

} // verus!
