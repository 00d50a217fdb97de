use vstd::prelude::*;

use crate::decimal::{Dec, DecView};

verus! {

/// Binary operators.
#[derive(Debug, Clone, Copy, PartialEq, Eq, Structural)]
pub enum BinOp {
    Plus,
    Minus,
    Multiply,
    Divide,
    Eq,
    Neq,
    Lt,
    Gt,
    Lte,
    Gte,
    And,
    Or,
}

/// One `WHEN condition THEN result` arm of a `CASE`.
#[derive(Debug)]
pub struct WhenClause {
    pub condition: Box<AstNode>,
    pub result: Box<AstNode>,
}

/// A parsed expression.
#[derive(Debug)]
pub enum AstNode {
    Select(Box<AstNode>),
    NumberLit(Dec),
    StringLit(String),
    BoolLit(bool),
    NullLit,
    Identifier(String),
    BinaryOp { op: BinOp, left: Box<AstNode>, right: Box<AstNode> },
    CaseExpr { whens: Vec<WhenClause>, else_clause: Option<Box<AstNode>> },
    FunctionCall { name: String, args: Vec<AstNode> },
    InExpr { expr: Box<AstNode>, items: Vec<AstNode> },
    NotInExpr { expr: Box<AstNode>, items: Vec<AstNode> },
    LikeExpr { expr: Box<AstNode>, pattern: Box<AstNode> },
    NotLikeExpr { expr: Box<AstNode>, pattern: Box<AstNode> },
}

/// The mathematical model of an expression.
pub enum SAst {
    Select(Box<SAst>),
    NumberLit(DecView),
    StringLit(Seq<char>),
    BoolLit(bool),
    NullLit,
    Identifier(Seq<char>),
    BinaryOp { op: BinOp, left: Box<SAst>, right: Box<SAst> },
    CaseExpr { whens: Seq<SWhen>, else_clause: Option<Box<SAst>> },
    FunctionCall { name: Seq<char>, args: Seq<SAst> },
    InExpr { expr: Box<SAst>, items: Seq<SAst> },
    NotInExpr { expr: Box<SAst>, items: Seq<SAst> },
    LikeExpr { expr: Box<SAst>, pattern: Box<SAst> },
    NotLikeExpr { expr: Box<SAst>, pattern: Box<SAst> },
}

/// The model of a `WHEN` arm.
pub struct SWhen {
    pub condition: SAst,
    pub result: SAst,
}

pub open spec fn ast_view(n: AstNode) -> SAst
    decreases n,
{
    match n {
        AstNode::Select(inner) => SAst::Select(Box::new(ast_view(*inner))),
        AstNode::NumberLit(d) => SAst::NumberLit(d@),
        AstNode::StringLit(s) => SAst::StringLit(s@),
        AstNode::BoolLit(b) => SAst::BoolLit(b),
        AstNode::NullLit => SAst::NullLit,
        AstNode::Identifier(s) => SAst::Identifier(s@),
        AstNode::BinaryOp { op, left, right } => SAst::BinaryOp {
            op,
            left: Box::new(ast_view(*left)),
            right: Box::new(ast_view(*right)),
        },
        AstNode::CaseExpr { whens, else_clause } => SAst::CaseExpr {
            whens: whens_view(whens@),
            else_clause: match else_clause {
                Some(e) => Some(Box::new(ast_view(*e))),
                None => None,
            },
        },
        AstNode::FunctionCall { name, args } => SAst::FunctionCall {
            name: name@,
            args: asts_view(args@),
        },
        AstNode::InExpr { expr, items } => SAst::InExpr {
            expr: Box::new(ast_view(*expr)),
            items: asts_view(items@),
        },
        AstNode::NotInExpr { expr, items } => SAst::NotInExpr {
            expr: Box::new(ast_view(*expr)),
            items: asts_view(items@),
        },
        AstNode::LikeExpr { expr, pattern } => SAst::LikeExpr {
            expr: Box::new(ast_view(*expr)),
            pattern: Box::new(ast_view(*pattern)),
        },
        AstNode::NotLikeExpr { expr, pattern } => SAst::NotLikeExpr {
            expr: Box::new(ast_view(*expr)),
            pattern: Box::new(ast_view(*pattern)),
        },
    }
}

pub open spec fn asts_view(s: Seq<AstNode>) -> Seq<SAst>
    decreases s,
{
    if s.len() == 0 {
        Seq::empty()
    } else {
        asts_view(s.drop_last()).push(ast_view(s.last()))
    }
}

pub open spec fn whens_view(s: Seq<WhenClause>) -> Seq<SWhen>
    decreases s,
{
    if s.len() == 0 {
        Seq::empty()
    } else {
        whens_view(s.drop_last()).push(
            SWhen { condition: ast_view(*s.last().condition), result: ast_view(*s.last().result) },
        )
    }
}

impl View for AstNode {
    type V = SAst;

    open spec fn view(&self) -> SAst {
        ast_view(*self)
    }
}

impl View for WhenClause {
    type V = SWhen;

    open spec fn view(&self) -> SWhen {
        SWhen { condition: ast_view(*self.condition), result: ast_view(*self.result) }
    }
}

pub proof fn lemma_asts_view(s: Seq<AstNode>)
    ensures
        asts_view(s).len() == s.len(),
        forall|i: int| 0 <= i < s.len() ==> #[trigger] asts_view(s)[i] == ast_view(s[i]),
    decreases s.len(),
{
    if s.len() > 0 {
        lemma_asts_view(s.drop_last());
    }
}

pub proof fn lemma_whens_view(s: Seq<WhenClause>)
    ensures
        whens_view(s).len() == s.len(),
        forall|i: int| 0 <= i < s.len() ==> #[trigger] whens_view(s)[i] == s[i]@,
    decreases s.len(),
{
    if s.len() > 0 {
        lemma_whens_view(s.drop_last());
    }
}

pub proof fn lemma_asts_view_push(s: Seq<AstNode>, n: AstNode)
    ensures
        asts_view(s.push(n)) == asts_view(s).push(ast_view(n)),
{
    assert(s.push(n).drop_last() =~= s);
}

pub proof fn lemma_whens_view_push(s: Seq<WhenClause>, w: WhenClause)
    ensures
        whens_view(s.push(w)) == whens_view(s).push(w@),
{
    assert(s.push(w).drop_last() =~= s);
}

fn duplicate_list(v: &Vec<AstNode>) -> (r: Vec<AstNode>)
    ensures
        asts_view(r@) == asts_view(v@),
    decreases v, 0int,
{
    let mut out: Vec<AstNode> = Vec::new();
    let mut i: usize = 0;
    proof {
        lemma_asts_view(v@);
        assert(asts_view(out@) =~= asts_view(v@).take(0));
    }
    while i < v.len()
        invariant
            i <= v.len(),
            asts_view(out@) == asts_view(v@).take(i as int),
            asts_view(v@).len() == v@.len(),
            forall|m: int| 0 <= m < v@.len() ==> #[trigger] asts_view(v@)[m] == ast_view(v@[m]),
        decreases v.len() - i,
    {
        proof {
            assert(decreases_to!(v => v@));
            assert(decreases_to!(v@ => v@[i as int]));
        }
        let n = v[i].duplicate();
        let ghost before = out@;
        out.push(n);
        proof {
            lemma_asts_view_push(before, n);
            assert(asts_view(out@) =~= asts_view(v@).take(i + 1));
        }
        i += 1;
    }
    proof {
        assert(asts_view(v@).take(v.len() as int) =~= asts_view(v@));
    }
    out
}

fn duplicate_whens(v: &Vec<WhenClause>) -> (r: Vec<WhenClause>)
    ensures
        whens_view(r@) == whens_view(v@),
    decreases v, 0int,
{
    let mut out: Vec<WhenClause> = Vec::new();
    let mut i: usize = 0;
    proof {
        lemma_whens_view(v@);
        assert(whens_view(out@) =~= whens_view(v@).take(0));
    }
    while i < v.len()
        invariant
            i <= v.len(),
            whens_view(out@) == whens_view(v@).take(i as int),
            whens_view(v@).len() == v@.len(),
            forall|m: int| 0 <= m < v@.len() ==> #[trigger] whens_view(v@)[m] == v@[m]@,
        decreases v.len() - i,
    {
        proof {
            assert(decreases_to!(v => v@));
            assert(decreases_to!(v@ => v@[i as int]));
            assert(decreases_to!(v@[i as int] => v@[i as int].condition));
            assert(decreases_to!(v@[i as int] => v@[i as int].result));
        }
        let c = v[i].condition.duplicate();
        let r = v[i].result.duplicate();
        let w = WhenClause { condition: Box::new(c), result: Box::new(r) };
        let ghost before = out@;
        out.push(w);
        proof {
            lemma_whens_view_push(before, w);
            assert(whens_view(out@) =~= whens_view(v@).take(i + 1));
        }
        i += 1;
    }
    proof {
        assert(whens_view(v@).take(v.len() as int) =~= whens_view(v@));
    }
    out
}

impl AstNode {
    /// A copy of this expression.
    pub fn duplicate(&self) -> (r: AstNode)
        ensures
            r@ == self@,
        decreases self, 1int,
    {
        match self {
            AstNode::Select(inner) => AstNode::Select(Box::new((**inner).duplicate())),
            AstNode::NumberLit(d) => AstNode::NumberLit(*d),
            AstNode::StringLit(s) => AstNode::StringLit(s.clone()),
            AstNode::BoolLit(b) => AstNode::BoolLit(*b),
            AstNode::NullLit => AstNode::NullLit,
            AstNode::Identifier(s) => AstNode::Identifier(s.clone()),
            AstNode::BinaryOp { op, left, right } => AstNode::BinaryOp {
                op: *op,
                left: Box::new((**left).duplicate()),
                right: Box::new((**right).duplicate()),
            },
            AstNode::CaseExpr { whens, else_clause } => {
                let e = match else_clause {
                    Some(x) => Some(Box::new((**x).duplicate())),
                    None => None,
                };
                AstNode::CaseExpr { whens: duplicate_whens(whens), else_clause: e }
            },
            AstNode::FunctionCall { name, args } => AstNode::FunctionCall {
                name: name.clone(),
                args: duplicate_list(args),
            },
            AstNode::InExpr { expr, items } => AstNode::InExpr {
                expr: Box::new((**expr).duplicate()),
                items: duplicate_list(items),
            },
            AstNode::NotInExpr { expr, items } => AstNode::NotInExpr {
                expr: Box::new((**expr).duplicate()),
                items: duplicate_list(items),
            },
            AstNode::LikeExpr { expr, pattern } => AstNode::LikeExpr {
                expr: Box::new((**expr).duplicate()),
                pattern: Box::new((**pattern).duplicate()),
            },
            AstNode::NotLikeExpr { expr, pattern } => AstNode::NotLikeExpr {
                expr: Box::new((**expr).duplicate()),
                pattern: Box::new((**pattern).duplicate()),
            },
        }
    }
}

} // verus!
