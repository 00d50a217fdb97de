//! Properties of the whole library: what holds of every expression,
//! context and value, proved from the stated semantics.

use vstd::prelude::*;
use vstd::string::*;

use crate::ast::{BinOp, SAst, SWhen};
use crate::decimal::{dec_order, spec_decimal_parse, DecView};
use crate::evaluator::spec_regex_search;
use crate::evaluator::{
    binop_value, compare_values, eval, eval_call, eval_coalesce, eval_concat, eval_in, eval_whens,
    first_dot, lemma_coalesce_paced, lemma_concat_paced, lemma_eval_paced, lemma_in_paced,
    lemma_whens_paced, lookup, plain_env, resolve, same_value, spec_evaluate_plain, spec_step,
    text_order, truthy, value_text, values_equal, CtxView, EnvView, Outcome, SStep, SValue, Stop,
};
use crate::lexer::{
    ascii_upper, ascii_upper_seq, block_end, cons_token, ident_end, is_ascii_alpha, is_ascii_digit,
    is_ascii_ws, lemma_block_end, lemma_ident_end, lemma_line_end, lemma_number_end,
    lemma_quote_end, lex_from, line_end, number_end, quote_end, simple_tok, single_char_token,
    spec_keyword, spec_tokenize, two_char_token,
};
use crate::parser::{
    arith_group, arith_loop, arith_op, args_loop, case_loop, comparison_tail, function_args,
    in_list_loop, is_comparison_token, is_tail, is_function_token, logical_loop, not_tail, p_arith, p_case,
    p_comparison, p_function, p_in_list, p_logical, p_primary, spec_expect, spec_parse, tok_ty,
    ParseResult,
};
use crate::tokens::{TokenType, TokenView};
use crate::spec_parse_text;

verus! {

/// An outcome with its boolean value negated; any other outcome as it is.
pub open spec fn negated(o: Outcome) -> Outcome {
    match o.0 {
        Ok(SValue::Bool(b)) => (Ok(SValue::Bool(!b)), o.1),
        _ => o,
    }
}

/// `AND` stops at a left operand that is not true: the result is that
/// operand, and the right operand is not evaluated (it asks nothing and
/// its errors do not show).
pub proof fn law_and_short_circuits(left: SAst, right: SAst, ctx: CtxView, env: EnvView, k: nat)
    requires
        eval(left, ctx, env, k).0 matches Ok(v) && !truthy(v),
    ensures
        eval(SAst::BinaryOp { op: BinOp::And, left: Box::new(left), right: Box::new(right) }, ctx, env, k)
            == eval(left, ctx, env, k),
{
}

/// `OR` stops at a left operand that is true: the result is that operand,
/// and the right operand is not evaluated.
pub proof fn law_or_short_circuits(left: SAst, right: SAst, ctx: CtxView, env: EnvView, k: nat)
    requires
        eval(left, ctx, env, k).0 matches Ok(v) && truthy(v),
    ensures
        eval(SAst::BinaryOp { op: BinOp::Or, left: Box::new(left), right: Box::new(right) }, ctx, env, k)
            == eval(left, ctx, env, k),
{
}

/// `a != b` is the negation of `a = b` (and `IS NOT` of `IS`), errors alike.
pub proof fn law_neq_negates_eq(left: SAst, right: SAst, ctx: CtxView, env: EnvView, k: nat)
    ensures
        eval(SAst::BinaryOp { op: BinOp::Neq, left: Box::new(left), right: Box::new(right) }, ctx, env, k)
            == negated(
            eval(
                SAst::BinaryOp { op: BinOp::Eq, left: Box::new(left), right: Box::new(right) },
                ctx,
                env,
                k,
            ),
        ),
{
}

/// `x NOT IN (...)` is the negation of `x IN (...)`, errors alike.
pub proof fn law_not_in_negates_in(expr: SAst, items: Seq<SAst>, ctx: CtxView, env: EnvView, k: nat)
    ensures
        eval(SAst::NotInExpr { expr: Box::new(expr), items }, ctx, env, k) == negated(
            eval(SAst::InExpr { expr: Box::new(expr), items }, ctx, env, k),
        ),
{
}

/// `x NOT LIKE p` is the negation of `x LIKE p`; both are NULL when either
/// side is NULL, and fail alike.
pub proof fn law_not_like_negates_like(expr: SAst, pattern: SAst, ctx: CtxView, env: EnvView, k: nat)
    ensures
        eval(SAst::NotLikeExpr { expr: Box::new(expr), pattern: Box::new(pattern) }, ctx, env, k)
            == negated(
            eval(SAst::LikeExpr { expr: Box::new(expr), pattern: Box::new(pattern) }, ctx, env, k),
        ),
{
}

/// A name the context holds is its field's value: the resolver is never
/// asked for it, and no answer is used.
pub proof fn law_context_before_resolver(name: Seq<char>, ctx: CtxView, env: EnvView, k: nat)
    requires
        lookup(ctx.fields, name) is Some,
    ensures
        resolve(name, ctx, env, k) == (Ok::<SValue, Stop>(lookup(ctx.fields, name)->0), k),
{
}

/// The text order is antisymmetric.
pub proof fn law_text_order_antisymmetric(a: Seq<char>, b: Seq<char>)
    ensures
        text_order(b, a) == -text_order(a, b),
        -1 <= text_order(a, b) <= 1,
    decreases a.len(),
{
    if a.len() > 0 && b.len() > 0 && a[0] == b[0] {
        law_text_order_antisymmetric(a.drop_first(), b.drop_first());
    }
}

/// Every text is equal to itself in the text order.
pub proof fn law_text_order_reflexive(a: Seq<char>)
    ensures
        text_order(a, a) == 0,
    decreases a.len(),
{
    if a.len() > 0 {
        law_text_order_reflexive(a.drop_first());
    }
}

/// Comparison is antisymmetric: swapping the operands negates the order,
/// and two values are comparable in either order or in neither.
pub proof fn law_compare_antisymmetric(a: SValue, b: SValue)
    ensures
        compare_values(b, a) == (if compare_values(a, b) == -2 {
            -2
        } else {
            -compare_values(a, b)
        }),
{
    law_text_order_antisymmetric(value_text(a), value_text(b));
    match a {
        SValue::Decimal(x) => match b {
            SValue::Decimal(y) => law_dec_order_antisymmetric(x, y),
            SValue::Str(y) => {
                if let Ok(dy) = spec_decimal_parse(y) {
                    law_dec_order_antisymmetric(x, dy);
                }
            },
            _ => {},
        },
        SValue::Str(x) => match b {
            SValue::Str(y) => {
                law_text_order_antisymmetric(x, y);
                match (spec_decimal_parse(x), spec_decimal_parse(y)) {
                    (Ok(dx), Ok(dy)) => law_dec_order_antisymmetric(dx, dy),
                    _ => {},
                }
            },
            SValue::Decimal(y) => {
                if let Ok(dx) = spec_decimal_parse(x) {
                    law_dec_order_antisymmetric(dx, y);
                }
            },
            _ => {},
        },
        _ => {},
    }
}

/// The numeric order of decimals is antisymmetric.
pub proof fn law_dec_order_antisymmetric(a: DecView, b: DecView)
    ensures
        dec_order(b, a) == -dec_order(a, b),
{
}

/// Every value compares equal to itself, and `=` holds of it.
pub proof fn law_compare_reflexive(a: SValue)
    ensures
        compare_values(a, a) == 0,
        values_equal(a, a),
{
    law_text_order_reflexive(value_text(a));
    if let SValue::Str(x) = a {
        law_text_order_reflexive(x);
    }
}

/// `=` is symmetric.
pub proof fn law_equality_symmetric(a: SValue, b: SValue)
    ensures
        values_equal(a, b) == values_equal(b, a),
{
    law_compare_antisymmetric(a, b);
}

/// `a < b` holds exactly when `b > a` does, and `a <= b` exactly when
/// `b >= a`.
pub proof fn law_less_is_converse_greater(a: SValue, b: SValue)
    ensures
        binop_value(BinOp::Lt, a, b) == binop_value(BinOp::Gt, b, a),
        binop_value(BinOp::Lte, a, b) == binop_value(BinOp::Gte, b, a),
{
    law_compare_antisymmetric(a, b);
}

/// Without resolvers, evaluation uses no answers.
proof fn lemma_plain_uses_nothing(n: SAst, ctx: CtxView)
    ensures
        eval(n, ctx, plain_env(), 0).1 == 0,
{
    lemma_eval_paced(n, ctx, plain_env(), 0);
}

/// The arguments of COALESCE before number `j` are all NULL.
pub open spec fn all_null_before(args: Seq<SAst>, ctx: CtxView, j: int) -> bool {
    forall|i: int|
        0 <= i < j ==> #[trigger] eval(args[i], ctx, plain_env(), 0).0 == Ok::<SValue, Stop>(
            SValue::Null,
        )
}

proof fn lemma_coalesce_skips_nulls(args: Seq<SAst>, ctx: CtxView, i: int, j: int)
    requires
        0 <= i <= j <= args.len(),
        all_null_before(args, ctx, j),
    ensures
        eval_coalesce(args, i, ctx, plain_env(), 0) == eval_coalesce(args, j, ctx, plain_env(), 0),
    decreases j - i,
{
    if i < j {
        lemma_plain_uses_nothing(args[i], ctx);
        lemma_coalesce_skips_nulls(args, ctx, i + 1, j);
    }
}

proof fn lemma_coalesce_call(args: Seq<SAst>, ctx: CtxView)
    ensures
        eval(SAst::FunctionCall { name: "COALESCE"@, args }, ctx, plain_env(), 0) == eval_coalesce(
            args,
            0,
            ctx,
            plain_env(),
            0,
        ),
{
    reveal_strlit("COALESCE");
    reveal_strlit("ROUND");
    assert(eval(SAst::FunctionCall { name: "COALESCE"@, args }, ctx, plain_env(), 0)
        == eval_call("COALESCE"@, args, ctx, plain_env(), 0));
    assert("COALESCE"@ != "ROUND"@);
    assert(eval_call("COALESCE"@, args, ctx, plain_env(), 0)
        == eval_coalesce(args, 0, ctx, plain_env(), 0));
}

/// COALESCE gives its first argument that is not NULL (later arguments are
/// not evaluated).
pub proof fn law_coalesce_first_non_null(args: Seq<SAst>, ctx: CtxView, j: int)
    requires
        0 <= j < args.len(),
        all_null_before(args, ctx, j),
        eval(args[j], ctx, plain_env(), 0).0 matches Ok(v) && !(v is Null),
    ensures
        eval(SAst::FunctionCall { name: "COALESCE"@, args }, ctx, plain_env(), 0) == eval(
            args[j],
            ctx,
            plain_env(),
            0,
        ),
{
    lemma_coalesce_call(args, ctx);
    lemma_coalesce_skips_nulls(args, ctx, 0, j);
    lemma_plain_uses_nothing(args[j], ctx);
}

/// COALESCE of arguments that are all NULL is NULL.
pub proof fn law_coalesce_all_null(args: Seq<SAst>, ctx: CtxView)
    requires
        all_null_before(args, ctx, args.len() as int),
    ensures
        eval(SAst::FunctionCall { name: "COALESCE"@, args }, ctx, plain_env(), 0) == (
            Ok::<SValue, Stop>(SValue::Null),
            0nat,
        ),
{
    lemma_coalesce_call(args, ctx);
    lemma_coalesce_skips_nulls(args, ctx, 0, args.len() as int);
}

/// The conditions of the `WHEN` arms before number `j` all evaluate to
/// values that are not true.
pub open spec fn no_arm_before(whens: Seq<SWhen>, ctx: CtxView, j: int) -> bool {
    forall|i: int|
        0 <= i < j ==> (#[trigger] eval(whens[i].condition, ctx, plain_env(), 0).0 matches Ok(c)
            && !truthy(c))
}

proof fn lemma_whens_skip(whens: Seq<SWhen>, ctx: CtxView, i: int, j: int)
    requires
        0 <= i <= j <= whens.len(),
        no_arm_before(whens, ctx, j),
    ensures
        eval_whens(whens, i, ctx, plain_env(), 0) == eval_whens(whens, j, ctx, plain_env(), 0),
    decreases j - i,
{
    if i < j {
        lemma_plain_uses_nothing(whens[i].condition, ctx);
        lemma_whens_skip(whens, ctx, i + 1, j);
    }
}

/// CASE gives the result of its first `WHEN` arm whose condition is true
/// (later arms are not evaluated).
pub proof fn law_case_first_true_arm(
    whens: Seq<SWhen>,
    else_clause: Option<Box<SAst>>,
    ctx: CtxView,
    j: int,
)
    requires
        0 <= j < whens.len(),
        no_arm_before(whens, ctx, j),
        eval(whens[j].condition, ctx, plain_env(), 0).0 matches Ok(c) && truthy(c),
    ensures
        eval(SAst::CaseExpr { whens, else_clause }, ctx, plain_env(), 0) == eval(
            whens[j].result,
            ctx,
            plain_env(),
            0,
        ),
{
    lemma_whens_skip(whens, ctx, 0, j);
    lemma_plain_uses_nothing(whens[j].condition, ctx);
    lemma_plain_uses_nothing(whens[j].result, ctx);
}

/// CASE with no true `WHEN` arm gives its `ELSE` value, or NULL without one.
pub proof fn law_case_no_true_arm(whens: Seq<SWhen>, else_clause: Option<Box<SAst>>, ctx: CtxView)
    requires
        no_arm_before(whens, ctx, whens.len() as int),
    ensures
        eval(SAst::CaseExpr { whens, else_clause }, ctx, plain_env(), 0) == match else_clause {
            Some(e) => eval(*e, ctx, plain_env(), 0),
            None => (Ok::<SValue, Stop>(SValue::Null), 0nat),
        },
{
    lemma_whens_skip(whens, ctx, 0, whens.len() as int);
}

/// Two values of the library's `==` are equal to themselves, and `==` is
/// symmetric.
pub proof fn law_value_equality(a: SValue, b: SValue)
    ensures
        same_value(a, a),
        same_value(a, b) == same_value(b, a),
{
    if let (SValue::Decimal(x), SValue::Decimal(y)) = (a, b) {
        law_dec_order_antisymmetric(x, y);
    }
}

/// A dotted name `a.rest` that the context does not hold as a field is
/// `rest` looked up in the nested context `a` (the first dot splits).
pub proof fn law_dot_path_reaches_nested(
    a: Seq<char>,
    rest: Seq<char>,
    ctx: CtxView,
    env: EnvView,
    k: nat,
)
    requires
        !a.contains('.'),
        lookup(ctx.fields, a + seq!['.'] + rest) is None,
        lookup(ctx.nested, a) is Some,
    ensures
        resolve(a + seq!['.'] + rest, ctx, env, k) == resolve(rest, lookup(ctx.nested, a)->0, env, k),
{
    let name = a + seq!['.'] + rest;
    lemma_first_dot_at(name, a.len() as int, 0);
    assert(name.subrange(0, a.len() as int) =~= a);
    assert(name.subrange(a.len() + 1int, name.len() as int) =~= rest);
}

proof fn lemma_first_dot_at(s: Seq<char>, d: int, i: int)
    requires
        0 <= i <= d < s.len(),
        s[d] == '.',
        forall|m: int| i <= m < d ==> s[m] != '.',
    ensures
        first_dot(s, i) == Some(d),
    decreases d - i,
{
    if i < d {
        lemma_first_dot_at(s, d, i + 1);
    }
}

// ── comparison operators ──

/// What a comparison operator gives on two values: `=` compares two strings
/// by text and two decimals by value, other pairs by [`compare_values`];
/// `!=` is its negation; `<`, `>`, `<=`, `>=` read the order, so nothing
/// but NULL is equal to NULL and no order holds between NULL and another
/// value.
pub open spec fn comparison_result(op: BinOp, lv: SValue, rv: SValue) -> bool {
    let c = compare_values(lv, rv);
    let eq = match (lv, rv) {
        (SValue::Str(a), SValue::Str(b)) => a == b,
        (SValue::Decimal(a), SValue::Decimal(b)) => dec_order(a, b) == 0,
        _ => c == 0,
    };
    match op {
        BinOp::Eq => eq,
        BinOp::Neq => !eq,
        BinOp::Lt => c == -1,
        BinOp::Gt => c == 1,
        BinOp::Lte => c == -1 || c == 0,
        _ => c == 0 || c == 1,
    }
}

pub open spec fn is_comparison(op: BinOp) -> bool {
    op == BinOp::Eq || op == BinOp::Neq || op == BinOp::Lt || op == BinOp::Gt || op == BinOp::Lte
        || op == BinOp::Gte
}

/// A comparison whose operands evaluate to values gives a boolean: the
/// comparison of the two values (see [`comparison_result`]), with the
/// answers the operands used.
pub proof fn law_comparison_operators(
    op: BinOp,
    left: SAst,
    right: SAst,
    ctx: CtxView,
    env: EnvView,
    k: nat,
)
    requires
        is_comparison(op),
        eval(left, ctx, env, k).0 is Ok,
        eval(right, ctx, env, eval(left, ctx, env, k).1).0 is Ok,
    ensures
        eval(SAst::BinaryOp { op, left: Box::new(left), right: Box::new(right) }, ctx, env, k) == (
            Ok::<SValue, Stop>(
                SValue::Bool(
                    comparison_result(
                        op,
                        eval(left, ctx, env, k).0->Ok_0,
                        eval(right, ctx, env, eval(left, ctx, env, k).1).0->Ok_0,
                    ),
                ),
            ),
            eval(right, ctx, env, eval(left, ctx, env, k).1).1,
        ),
{
}

// ── IN ──

/// The values of the items from number `i` on, each evaluated in turn from
/// answer `k` on; `None` if one of them does not evaluate to a value.
pub open spec fn item_values(items: Seq<SAst>, i: int, ctx: CtxView, env: EnvView, k: nat) -> Option<
    Seq<SValue>,
>
    decreases items.len() - i,
{
    if i < 0 || i >= items.len() {
        Some(Seq::empty())
    } else {
        match eval(items[i], ctx, env, k) {
            (Ok(x), k1) => match item_values(items, i + 1, ctx, env, k1) {
                Some(rest) => Some(seq![x] + rest),
                None => None,
            },
            _ => None,
        }
    }
}

/// Whether some value of `vals` compares equal to `v`.
pub open spec fn some_equal(v: SValue, vals: Seq<SValue>) -> bool {
    exists|j: int| 0 <= j < vals.len() && compare_values(v, #[trigger] vals[j]) == 0
}

proof fn lemma_in_membership(v: SValue, items: Seq<SAst>, i: int, ctx: CtxView, env: EnvView, k: nat)
    requires
        0 <= i,
        item_values(items, i, ctx, env, k) is Some,
    ensures
        eval_in(v, items, i, ctx, env, k).0 == Ok::<bool, Stop>(
            some_equal(v, item_values(items, i, ctx, env, k)->0),
        ),
    decreases items.len() - i,
{
    if i < items.len() {
        let (x, k1) = (eval(items[i], ctx, env, k).0->Ok_0, eval(items[i], ctx, env, k).1);
        let rest = item_values(items, i + 1, ctx, env, k1)->0;
        let vals = seq![x] + rest;
        assert(vals[0] == x);
        if compare_values(v, x) != 0 {
            lemma_in_membership(v, items, i + 1, ctx, env, k1);
            if some_equal(v, vals) {
                let j = choose|j: int| 0 <= j < vals.len() && compare_values(v, #[trigger] vals[j]) == 0;
                assert(vals[j] == rest[j - 1]);
            }
            if some_equal(v, rest) {
                let j = choose|j: int| 0 <= j < rest.len() && compare_values(v, #[trigger] rest[j]) == 0;
                assert(vals[j + 1] == rest[j]);
            }
        }
    } else {
        assert(item_values(items, i, ctx, env, k)->0 =~= Seq::<SValue>::empty());
    }
}

/// When the expression and every item evaluate to values, `x IN (...)` is
/// whether some item compares equal to `x`, and `x NOT IN (...)` the
/// negation (items after the first equal one are not evaluated).
pub proof fn law_in_is_membership(expr: SAst, items: Seq<SAst>, ctx: CtxView, env: EnvView, k: nat)
    requires
        eval(expr, ctx, env, k).0 is Ok,
        item_values(items, 0, ctx, env, eval(expr, ctx, env, k).1) is Some,
    ensures
        eval(SAst::InExpr { expr: Box::new(expr), items }, ctx, env, k).0 == Ok::<SValue, Stop>(
            SValue::Bool(
                some_equal(
                    eval(expr, ctx, env, k).0->Ok_0,
                    item_values(items, 0, ctx, env, eval(expr, ctx, env, k).1)->0,
                ),
            ),
        ),
        eval(SAst::NotInExpr { expr: Box::new(expr), items }, ctx, env, k).0 == Ok::<SValue, Stop>(
            SValue::Bool(
                !some_equal(
                    eval(expr, ctx, env, k).0->Ok_0,
                    item_values(items, 0, ctx, env, eval(expr, ctx, env, k).1)->0,
                ),
            ),
        ),
{
    lemma_in_membership(eval(expr, ctx, env, k).0->Ok_0, items, 0, ctx, env, eval(expr, ctx, env, k).1);
}

// ── resolvers fill gaps only ──

/// What evaluation without resolvers gives of `n` (it uses no answers).
pub open spec fn plain(n: SAst, ctx: CtxView) -> Result<SValue, Stop> {
    eval(n, ctx, plain_env(), 0).0
}

proof fn agree_resolve(name: Seq<char>, ctx: CtxView, env: EnvView, k: nat)
    requires
        resolve(name, ctx, plain_env(), 0).0 is Ok,
    ensures
        resolve(name, ctx, env, k) == (resolve(name, ctx, plain_env(), 0).0, k),
    decreases name.len(),
{
    if lookup(ctx.fields, name) is None {
        let d = first_dot(name, 0);
        crate::evaluator::lemma_first_dot(name, 0);
        if d is Some && lookup(ctx.nested, name.subrange(0, d->0)) is Some {
            agree_resolve(
                name.subrange(d->0 + 1, name.len() as int),
                lookup(ctx.nested, name.subrange(0, d->0))->0,
                env,
                k,
            );
        }
    }
}

proof fn agree_eval(n: SAst, ctx: CtxView, env: EnvView, k: nat)
    requires
        k <= env.answers.len(),
        plain(n, ctx) is Ok,
    ensures
        eval(n, ctx, env, k) == (plain(n, ctx), k),
    decreases n, 0int,
{
    lemma_eval_paced(n, ctx, plain_env(), 0);
    match n {
        SAst::Select(inner) => agree_eval(*inner, ctx, env, k),
        SAst::Identifier(name) => agree_resolve(name, ctx, env, k),
        SAst::BinaryOp { op, left, right } => {
            lemma_eval_paced(*left, ctx, plain_env(), 0);
            agree_eval(*left, ctx, env, k);
            let lv = plain(*left, ctx)->Ok_0;
            if !((op == BinOp::And && !truthy(lv)) || (op == BinOp::Or && truthy(lv))) {
                lemma_eval_paced(*right, ctx, plain_env(), 0);
                agree_eval(*right, ctx, env, k);
            }
        },
        SAst::CaseExpr { whens, else_clause } => {
            lemma_whens_paced(whens, 0, ctx, plain_env(), 0);
            agree_whens(whens, 0, ctx, env, k);
            if eval_whens(whens, 0, ctx, plain_env(), 0).0 == Ok::<Option<SValue>, Stop>(None) {
                if let Some(e) = else_clause {
                    agree_eval(*e, ctx, env, k);
                }
            }
        },
        SAst::FunctionCall { name, args } => agree_call(name, args, ctx, env, k),
        SAst::InExpr { expr, items } => {
            lemma_eval_paced(*expr, ctx, plain_env(), 0);
            agree_eval(*expr, ctx, env, k);
            let v = plain(*expr, ctx)->Ok_0;
            lemma_in_paced(v, items, 0, ctx, plain_env(), 0);
            agree_in(v, items, 0, ctx, env, k);
        },
        SAst::NotInExpr { expr, items } => {
            lemma_eval_paced(*expr, ctx, plain_env(), 0);
            agree_eval(*expr, ctx, env, k);
            let v = plain(*expr, ctx)->Ok_0;
            lemma_in_paced(v, items, 0, ctx, plain_env(), 0);
            agree_in(v, items, 0, ctx, env, k);
        },
        SAst::LikeExpr { expr, pattern } => {
            lemma_eval_paced(*expr, ctx, plain_env(), 0);
            agree_eval(*expr, ctx, env, k);
            lemma_eval_paced(*pattern, ctx, plain_env(), 0);
            agree_eval(*pattern, ctx, env, k);
        },
        SAst::NotLikeExpr { expr, pattern } => {
            lemma_eval_paced(*expr, ctx, plain_env(), 0);
            agree_eval(*expr, ctx, env, k);
            lemma_eval_paced(*pattern, ctx, plain_env(), 0);
            agree_eval(*pattern, ctx, env, k);
        },
        _ => {},
    }
}

proof fn agree_whens(whens: Seq<SWhen>, i: int, ctx: CtxView, env: EnvView, k: nat)
    requires
        k <= env.answers.len(),
        eval_whens(whens, i, ctx, plain_env(), 0).0 is Ok,
    ensures
        eval_whens(whens, i, ctx, env, k) == (eval_whens(whens, i, ctx, plain_env(), 0).0, k),
    decreases whens, whens.len() - i,
{
    if 0 <= i < whens.len() {
        lemma_eval_paced(whens[i].condition, ctx, plain_env(), 0);
        agree_eval(whens[i].condition, ctx, env, k);
        let c = plain(whens[i].condition, ctx)->Ok_0;
        if truthy(c) {
            lemma_eval_paced(whens[i].result, ctx, plain_env(), 0);
            agree_eval(whens[i].result, ctx, env, k);
        } else {
            agree_whens(whens, i + 1, ctx, env, k);
        }
    }
}

proof fn agree_in(v: SValue, items: Seq<SAst>, i: int, ctx: CtxView, env: EnvView, k: nat)
    requires
        k <= env.answers.len(),
        eval_in(v, items, i, ctx, plain_env(), 0).0 is Ok,
    ensures
        eval_in(v, items, i, ctx, env, k) == (eval_in(v, items, i, ctx, plain_env(), 0).0, k),
    decreases items, items.len() - i,
{
    if 0 <= i < items.len() {
        lemma_eval_paced(items[i], ctx, plain_env(), 0);
        agree_eval(items[i], ctx, env, k);
        let iv = plain(items[i], ctx)->Ok_0;
        if compare_values(v, iv) != 0 {
            agree_in(v, items, i + 1, ctx, env, k);
        }
    }
}

proof fn agree_coalesce(args: Seq<SAst>, i: int, ctx: CtxView, env: EnvView, k: nat)
    requires
        k <= env.answers.len(),
        eval_coalesce(args, i, ctx, plain_env(), 0).0 is Ok,
    ensures
        eval_coalesce(args, i, ctx, env, k) == (eval_coalesce(args, i, ctx, plain_env(), 0).0, k),
    decreases args, args.len() - i,
{
    if 0 <= i < args.len() {
        lemma_eval_paced(args[i], ctx, plain_env(), 0);
        agree_eval(args[i], ctx, env, k);
        if plain(args[i], ctx)->Ok_0 is Null {
            agree_coalesce(args, i + 1, ctx, env, k);
        }
    }
}

proof fn agree_concat(args: Seq<SAst>, i: int, acc: Seq<char>, ctx: CtxView, env: EnvView, k: nat)
    requires
        k <= env.answers.len(),
        eval_concat(args, i, acc, ctx, plain_env(), 0).0 is Ok,
    ensures
        eval_concat(args, i, acc, ctx, env, k) == (
            eval_concat(args, i, acc, ctx, plain_env(), 0).0,
            k,
        ),
    decreases args, args.len() - i,
{
    if 0 <= i < args.len() {
        lemma_eval_paced(args[i], ctx, plain_env(), 0);
        agree_eval(args[i], ctx, env, k);
        let v = plain(args[i], ctx)->Ok_0;
        agree_concat(args, i + 1, acc + value_text(v), ctx, env, k);
    }
}

proof fn agree_call(name: Seq<char>, args: Seq<SAst>, ctx: CtxView, env: EnvView, k: nat)
    requires
        k <= env.answers.len(),
        eval_call(name, args, ctx, plain_env(), 0).0 is Ok,
    ensures
        eval_call(name, args, ctx, env, k) == (eval_call(name, args, ctx, plain_env(), 0).0, k),
    decreases args, args.len() + 2,
{
    if name == "ROUND"@ {
        if args.len() == 2 {
            lemma_eval_paced(args[0], ctx, plain_env(), 0);
            agree_eval(args[0], ctx, env, k);
            if !(plain(args[0], ctx)->Ok_0 is Null) {
                lemma_eval_paced(args[1], ctx, plain_env(), 0);
                agree_eval(args[1], ctx, env, k);
            }
        }
    } else if name == "COALESCE"@ {
        lemma_coalesce_paced(args, 0, ctx, plain_env(), 0);
        agree_coalesce(args, 0, ctx, env, k);
    } else if name == "UPPER"@ || name == "LOWER"@ || name == "ABS"@ {
        if args.len() == 1 {
            lemma_eval_paced(args[0], ctx, plain_env(), 0);
            agree_eval(args[0], ctx, env, k);
        }
    } else if name == "CONCAT"@ {
        lemma_concat_paced(args, 0, Seq::empty(), ctx, plain_env(), 0);
        agree_concat(args, 0, Seq::empty(), ctx, env, k);
    } else if name == "EVENT"@ {
        if 2 <= args.len() <= 3 {
            lemma_eval_paced(args[0], ctx, plain_env(), 0);
            lemma_eval_paced(args[1], ctx, plain_env(), 0);
        }
    }
}

/// Resolvers only fill gaps: an expression that evaluates to a value
/// without resolvers evaluates to the same value with any resolvers, names
/// in progress and answers, and asks nothing.
pub proof fn law_resolvers_fill_gaps_only(n: SAst, ctx: CtxView, env: EnvView)
    requires
        spec_evaluate_plain(n, ctx) is Ok,
    ensures
        spec_step(n, ctx, env) == SStep::Done(spec_evaluate_plain(n, ctx)),
{
    lemma_eval_paced(n, ctx, plain_env(), 0);
    agree_eval(n, ctx, env, 0);
}

// ── the lexer ──

/// Two texts that differ at most in the case of ASCII letters.
pub open spec fn same_up_to_case(a: Seq<char>, b: Seq<char>) -> bool {
    &&& a.len() == b.len()
    &&& forall|i: int| 0 <= i < a.len() ==> ascii_upper(#[trigger] a[i]) == ascii_upper(b[i])
}

/// Two tokenizer outcomes with the same token types, or the same error.
pub open spec fn same_token_types(
    r1: Result<Seq<TokenView>, Seq<char>>,
    r2: Result<Seq<TokenView>, Seq<char>>,
) -> bool {
    match (r1, r2) {
        (Ok(x), Ok(y)) => x.len() == y.len() && forall|j: int|
            0 <= j < x.len() ==> (#[trigger] x[j]).ty == y[j].ty,
        (Err(m1), Err(m2)) => m1 == m2,
        _ => false,
    }
}

/// Characters with the same upper case are equal, or both letters.
proof fn lemma_same_upper(x: char, y: char)
    requires
        ascii_upper(x) == ascii_upper(y),
    ensures
        x == y || (is_ascii_alpha(x) && is_ascii_alpha(y)),
{
}

proof fn lemma_line_end_case(a: Seq<char>, b: Seq<char>, i: int)
    requires
        same_up_to_case(a, b),
        0 <= i,
    ensures
        line_end(a, i) == line_end(b, i),
    decreases a.len() - i,
{
    if i < a.len() {
        lemma_same_upper(a[i], b[i]);
        lemma_line_end_case(a, b, i + 1);
    }
}

proof fn lemma_block_end_case(a: Seq<char>, b: Seq<char>, i: int)
    requires
        same_up_to_case(a, b),
        0 <= i,
    ensures
        block_end(a, i) == block_end(b, i),
    decreases a.len() - i,
{
    if i + 1 < a.len() {
        lemma_same_upper(a[i], b[i]);
        lemma_same_upper(a[i + 1], b[i + 1]);
        lemma_block_end_case(a, b, i + 1);
    }
}

proof fn lemma_quote_end_case(a: Seq<char>, b: Seq<char>, i: int)
    requires
        same_up_to_case(a, b),
        0 <= i,
    ensures
        quote_end(a, i) == quote_end(b, i),
    decreases a.len() - i,
{
    if i < a.len() {
        lemma_same_upper(a[i], b[i]);
        lemma_quote_end_case(a, b, i + 1);
    }
}

proof fn lemma_number_end_case(a: Seq<char>, b: Seq<char>, i: int)
    requires
        same_up_to_case(a, b),
        0 <= i,
    ensures
        number_end(a, i) == number_end(b, i),
    decreases a.len() - i,
{
    if i < a.len() {
        lemma_same_upper(a[i], b[i]);
        lemma_number_end_case(a, b, i + 1);
    }
}

proof fn lemma_ident_end_case(a: Seq<char>, b: Seq<char>, i: int)
    requires
        same_up_to_case(a, b),
        0 <= i,
    ensures
        ident_end(a, i) == ident_end(b, i),
    decreases a.len() - i,
{
    if i < a.len() {
        lemma_same_upper(a[i], b[i]);
        lemma_ident_end_case(a, b, i + 1);
    }
}

proof fn lemma_cons_same_types(
    t1: TokenView,
    t2: TokenView,
    r1: Result<Seq<TokenView>, Seq<char>>,
    r2: Result<Seq<TokenView>, Seq<char>>,
)
    requires
        t1.ty == t2.ty,
        same_token_types(r1, r2),
    ensures
        same_token_types(cons_token(t1, r1), cons_token(t2, r2)),
{
    if let (Ok(x), Ok(y)) = (r1, r2) {
        let x1 = seq![t1] + x;
        let y1 = seq![t2] + y;
        assert forall|j: int| 0 <= j < x1.len() implies (#[trigger] x1[j]).ty == y1[j].ty by {
            if j > 0 {
                assert(x1[j] == x[j - 1]);
                assert(y1[j] == y[j - 1]);
            }
        }
    }
}

proof fn lemma_lex_case(a: Seq<char>, b: Seq<char>, i: int)
    requires
        same_up_to_case(a, b),
        0 <= i,
    ensures
        same_token_types(lex_from(a, i), lex_from(b, i)),
    decreases a.len() - i,
{
    if i < a.len() {
        let c = a[i];
        let d = b[i];
        lemma_same_upper(c, d);
        if i + 1 < a.len() {
            lemma_same_upper(a[i + 1], b[i + 1]);
        }
        if is_ascii_ws(c) {
            lemma_lex_case(a, b, i + 1);
        } else if c == '#' || (c == '-' && i + 1 < a.len() && a[i + 1] == '-') {
            lemma_line_end(a, i + 1);
            lemma_line_end_case(a, b, i + 1);
            lemma_lex_case(a, b, line_end(a, i + 1));
        } else if c == '/' && i + 1 < a.len() && a[i + 1] == '*' {
            lemma_block_end(a, i + 2);
            lemma_block_end_case(a, b, i + 2);
            if let Some(j) = block_end(a, i + 2) {
                lemma_lex_case(a, b, j);
            }
        } else if i + 1 < a.len() && two_char_token(c, a[i + 1]) is Some {
            lemma_lex_case(a, b, i + 2);
            lemma_cons_same_types(
                simple_tok(two_char_token(c, a[i + 1]).unwrap()),
                simple_tok(two_char_token(d, b[i + 1]).unwrap()),
                lex_from(a, i + 2),
                lex_from(b, i + 2),
            );
        } else if single_char_token(c) is Some {
            lemma_lex_case(a, b, i + 1);
            lemma_cons_same_types(
                simple_tok(single_char_token(c).unwrap()),
                simple_tok(single_char_token(d).unwrap()),
                lex_from(a, i + 1),
                lex_from(b, i + 1),
            );
        } else if c == '\'' {
            lemma_quote_end(a, i + 1);
            lemma_quote_end_case(a, b, i + 1);
            let j = quote_end(a, i + 1);
            if j < a.len() {
                lemma_lex_case(a, b, j + 1);
                lemma_cons_same_types(
                    TokenView { ty: TokenType::String, text: a.subrange(i + 1, j) },
                    TokenView { ty: TokenType::String, text: b.subrange(i + 1, j) },
                    lex_from(a, j + 1),
                    lex_from(b, j + 1),
                );
            }
        } else if is_ascii_digit(c) {
            lemma_number_end(a, i + 1);
            lemma_number_end_case(a, b, i);
            let j = number_end(a, i);
            lemma_lex_case(a, b, j);
            lemma_cons_same_types(
                TokenView { ty: TokenType::Number, text: a.subrange(i, j) },
                TokenView { ty: TokenType::Number, text: b.subrange(i, j) },
                lex_from(a, j),
                lex_from(b, j),
            );
        } else if is_ascii_alpha(c) || c == '_' {
            lemma_ident_end(a, i + 1);
            lemma_ident_end_case(a, b, i);
            let j = ident_end(a, i);
            let ta = a.subrange(i, j);
            let tb = b.subrange(i, j);
            assert(ascii_upper_seq(ta) =~= ascii_upper_seq(tb)) by {
                assert forall|m: int| 0 <= m < ta.len() implies ascii_upper(#[trigger] ta[m])
                    == ascii_upper(tb[m]) by {
                    assert(ta[m] == a[i + m]);
                    assert(tb[m] == b[i + m]);
                }
            }
            let ty_a = match spec_keyword(ta) {
                Some(kw) => kw,
                None => TokenType::Identifier,
            };
            let ty_b = match spec_keyword(tb) {
                Some(kw) => kw,
                None => TokenType::Identifier,
            };
            lemma_lex_case(a, b, j);
            lemma_cons_same_types(
                TokenView { ty: ty_a, text: ta },
                TokenView { ty: ty_b, text: tb },
                lex_from(a, j),
                lex_from(b, j),
            );
        }
    }
}

/// Keywords and function names are read without regard to case: two
/// inputs that differ only in the case of ASCII letters give tokens of the
/// same types, or fail with the same message.
pub proof fn law_keywords_ignore_case(a: Seq<char>, b: Seq<char>)
    requires
        same_up_to_case(a, b),
    ensures
        same_token_types(spec_tokenize(a), spec_tokenize(b)),
{
    lemma_lex_case(a, b, 0);
}

// ── the parser ──

/// `ts2` is `ts` with one token in front.
pub open spec fn one_in_front(ts2: Seq<TokenView>, ts: Seq<TokenView>) -> bool {
    &&& ts2.len() == ts.len() + 1
    &&& forall|p: int| 0 <= p < ts.len() ==> #[trigger] ts2[p + 1] == ts[p]
}

/// A parse outcome with its next position moved one token on.
pub open spec fn shifted(r: ParseResult) -> ParseResult {
    match r {
        Ok((n, q)) => Ok((n, q + 1)),
        Err(e) => Err(e),
    }
}

pub open spec fn shifted_list(r: Result<(Seq<SAst>, int), Seq<char>>) -> Result<
    (Seq<SAst>, int),
    Seq<char>,
> {
    match r {
        Ok((n, q)) => Ok((n, q + 1)),
        Err(e) => Err(e),
    }
}

/// A successful parse from `p` ends after `p` (`strict`) or at it, and
/// within the tokens.
pub open spec fn ends_within(r: ParseResult, p: int, len: int, strict: bool) -> bool {
    r matches Ok((_, q)) ==> (if strict {
        p < q
    } else {
        p <= q
    }) && q <= len
}

pub open spec fn list_ends_within(
    r: Result<(Seq<SAst>, int), Seq<char>>,
    p: int,
    len: int,
    strict: bool,
) -> bool {
    r matches Ok((_, q)) ==> (if strict {
        p < q
    } else {
        p <= q
    }) && q <= len
}

proof fn shift_expect(ts: Seq<TokenView>, ts2: Seq<TokenView>, p: int, ty: TokenType)
    requires
        one_in_front(ts2, ts),
        0 <= p,
    ensures
        spec_expect(ts2, p + 1, ty) == (match spec_expect(ts, p, ty) {
            Ok(q) => Ok::<int, Seq<char>>(q + 1),
            Err(e) => Err(e),
        }),
        spec_expect(ts, p, ty) matches Ok(q) ==> q == p + 1 && q <= ts.len(),
{
}

proof fn shift_logical(ts: Seq<TokenView>, ts2: Seq<TokenView>, p: int)
    requires
        one_in_front(ts2, ts),
        0 <= p,
    ensures
        p_logical(ts2, p + 1) == shifted(p_logical(ts, p)),
        ends_within(p_logical(ts, p), p, ts.len() as int, true),
    decreases ts.len() - p, 9int,
{
    shift_comparison(ts, ts2, p);
    if let Ok((left, q)) = p_comparison(ts, p) {
        if tok_ty(ts, q) == Some(TokenType::And) || tok_ty(ts, q) == Some(TokenType::Or) {
            shift_logical_loop(ts, ts2, q, left, tok_ty(ts, q).unwrap());
        }
    }
}

proof fn shift_logical_loop(ts: Seq<TokenView>, ts2: Seq<TokenView>, q: int, left: SAst, op: TokenType)
    requires
        one_in_front(ts2, ts),
        0 <= q <= ts.len(),
    ensures
        logical_loop(ts2, q + 1, left, op) == shifted(logical_loop(ts, q, left, op)),
        ends_within(logical_loop(ts, q, left, op), q, ts.len() as int, false),
    decreases ts.len() - q, 8int,
{
    if tok_ty(ts, q) == Some(op) {
        shift_comparison(ts, ts2, q + 1);
        if let Ok((right, r)) = p_comparison(ts, q + 1) {
            let node = SAst::BinaryOp {
                op: if op == TokenType::And {
                    BinOp::And
                } else {
                    BinOp::Or
                },
                left: Box::new(left),
                right: Box::new(right),
            };
            if !((tok_ty(ts, r) == Some(TokenType::And) && op == TokenType::Or) || (tok_ty(ts, r)
                == Some(TokenType::Or) && op == TokenType::And)) {
                shift_logical_loop(ts, ts2, r, node, op);
            }
        }
    }
}

proof fn shift_comparison(ts: Seq<TokenView>, ts2: Seq<TokenView>, p: int)
    requires
        one_in_front(ts2, ts),
        0 <= p,
    ensures
        p_comparison(ts2, p + 1) == shifted(p_comparison(ts, p)),
        ends_within(p_comparison(ts, p), p, ts.len() as int, true),
    decreases ts.len() - p, 7int,
{
    shift_arith(ts, ts2, p);
    if let Ok((left, q)) = p_arith(ts, p) {
        shift_comparison_tail(ts, ts2, q, left);
    }
}

proof fn shift_comparison_tail(ts: Seq<TokenView>, ts2: Seq<TokenView>, q: int, left: SAst)
    requires
        one_in_front(ts2, ts),
        0 <= q <= ts.len(),
    ensures
        comparison_tail(ts2, q + 1, left) == shifted(comparison_tail(ts, q, left)),
        ends_within(comparison_tail(ts, q, left), q, ts.len() as int, false),
    decreases ts.len() - q, 6int,
{
    if is_comparison_token(tok_ty(ts, q)) {
        shift_arith(ts, ts2, q + 1);
    } else if tok_ty(ts, q) == Some(TokenType::Is) {
    } else if tok_ty(ts, q) == Some(TokenType::Not) {
        shift_not_tail(ts, ts2, q, left);
    } else if tok_ty(ts, q) == Some(TokenType::In) {
        shift_in_list(ts, ts2, q + 1);
    } else if tok_ty(ts, q) == Some(TokenType::Like) {
        shift_primary(ts, ts2, q + 1);
    }
}

proof fn shift_not_tail(ts: Seq<TokenView>, ts2: Seq<TokenView>, q: int, left: SAst)
    requires
        one_in_front(ts2, ts),
        0 <= q,
    ensures
        not_tail(ts2, q + 1, left) == shifted(not_tail(ts, q, left)),
        ends_within(not_tail(ts, q, left), q, ts.len() as int, true),
    decreases ts.len() - q, 5int,
{
    if tok_ty(ts, q + 1) == Some(TokenType::In) {
        shift_in_list(ts, ts2, q + 2);
    } else if tok_ty(ts, q + 1) == Some(TokenType::Like) {
        shift_primary(ts, ts2, q + 2);
    }
}

proof fn shift_in_list(ts: Seq<TokenView>, ts2: Seq<TokenView>, p: int)
    requires
        one_in_front(ts2, ts),
        0 <= p,
    ensures
        p_in_list(ts2, p + 1) == shifted_list(p_in_list(ts, p)),
        list_ends_within(p_in_list(ts, p), p, ts.len() as int, true),
    decreases ts.len() - p, 2int,
{
    shift_expect(ts, ts2, p, TokenType::LParen);
    if let Ok(p1) = spec_expect(ts, p, TokenType::LParen) {
        shift_logical(ts, ts2, p1);
        if let Ok((first, q)) = p_logical(ts, p1) {
            shift_in_list_loop(ts, ts2, q, seq![first]);
        }
    }
}

proof fn shift_in_list_loop(ts: Seq<TokenView>, ts2: Seq<TokenView>, q: int, items: Seq<SAst>)
    requires
        one_in_front(ts2, ts),
        0 <= q <= ts.len(),
    ensures
        in_list_loop(ts2, q + 1, items) == shifted_list(in_list_loop(ts, q, items)),
        list_ends_within(in_list_loop(ts, q, items), q, ts.len() as int, true),
    decreases ts.len() - q, 1int,
{
    if tok_ty(ts, q) == Some(TokenType::Comma) {
        shift_logical(ts, ts2, q + 1);
        if let Ok((item, r)) = p_logical(ts, q + 1) {
            shift_in_list_loop(ts, ts2, r, items.push(item));
        }
    } else {
        shift_expect(ts, ts2, q, TokenType::RParen);
    }
}

proof fn shift_arith(ts: Seq<TokenView>, ts2: Seq<TokenView>, p: int)
    requires
        one_in_front(ts2, ts),
        0 <= p,
    ensures
        p_arith(ts2, p + 1) == shifted(p_arith(ts, p)),
        ends_within(p_arith(ts, p), p, ts.len() as int, true),
    decreases ts.len() - p, 6int,
{
    shift_primary(ts, ts2, p);
    if let Ok((left, q)) = p_primary(ts, p) {
        if let Some(g) = arith_group(tok_ty(ts, q)) {
            shift_arith_loop(ts, ts2, q, left, g);
        }
    }
}

proof fn shift_arith_loop(ts: Seq<TokenView>, ts2: Seq<TokenView>, q: int, left: SAst, g: int)
    requires
        one_in_front(ts2, ts),
        0 <= q <= ts.len(),
    ensures
        arith_loop(ts2, q + 1, left, g) == shifted(arith_loop(ts, q, left, g)),
        ends_within(arith_loop(ts, q, left, g), q, ts.len() as int, false),
    decreases ts.len() - q, 5int,
{
    if let Some(g2) = arith_group(tok_ty(ts, q)) {
        if g2 == g {
            shift_primary(ts, ts2, q + 1);
            if let Ok((right, r)) = p_primary(ts, q + 1) {
                let node = SAst::BinaryOp {
                    op: arith_op(tok_ty(ts, q).unwrap()),
                    left: Box::new(left),
                    right: Box::new(right),
                };
                shift_arith_loop(ts, ts2, r, node, g);
            }
        }
    }
}

proof fn shift_primary(ts: Seq<TokenView>, ts2: Seq<TokenView>, p: int)
    requires
        one_in_front(ts2, ts),
        0 <= p,
    ensures
        p_primary(ts2, p + 1) == shifted(p_primary(ts, p)),
        ends_within(p_primary(ts, p), p, ts.len() as int, true),
    decreases ts.len() - p, 4int,
{
    if let Some(t) = tok_ty(ts, p) {
        if t == TokenType::LParen {
            shift_logical(ts, ts2, p + 1);
            if let Ok((e, q)) = p_logical(ts, p + 1) {
                shift_expect(ts, ts2, q, TokenType::RParen);
            }
        } else if t == TokenType::Case {
            shift_case(ts, ts2, p);
        } else if is_function_token(t) {
            shift_function(ts, ts2, p);
        }
    }
}

proof fn shift_case(ts: Seq<TokenView>, ts2: Seq<TokenView>, p: int)
    requires
        one_in_front(ts2, ts),
        0 <= p,
    ensures
        p_case(ts2, p + 1) == shifted(p_case(ts, p)),
        ends_within(p_case(ts, p), p, ts.len() as int, true),
    decreases ts.len() - p, 3int,
{
    shift_expect(ts, ts2, p, TokenType::Case);
    if let Ok(p1) = spec_expect(ts, p, TokenType::Case) {
        shift_case_loop(ts, ts2, p1, Seq::empty());
    }
}

proof fn shift_case_loop(ts: Seq<TokenView>, ts2: Seq<TokenView>, q: int, whens: Seq<SWhen>)
    requires
        one_in_front(ts2, ts),
        0 <= q <= ts.len(),
    ensures
        case_loop(ts2, q + 1, whens) == shifted(case_loop(ts, q, whens)),
        ends_within(case_loop(ts, q, whens), q, ts.len() as int, true),
    decreases ts.len() - q, 2int,
{
    if tok_ty(ts, q) == Some(TokenType::When) {
        shift_logical(ts, ts2, q + 1);
        if let Ok((cond, r)) = p_logical(ts, q + 1) {
            shift_expect(ts, ts2, r, TokenType::Then);
            if let Ok(r1) = spec_expect(ts, r, TokenType::Then) {
                shift_logical(ts, ts2, r1);
                if let Ok((res, s)) = p_logical(ts, r1) {
                    shift_case_loop(ts, ts2, s, whens.push(SWhen { condition: cond, result: res }));
                }
            }
        }
    } else if whens.len() == 0 {
    } else if tok_ty(ts, q) == Some(TokenType::Else) {
        shift_logical(ts, ts2, q + 1);
        if let Ok((e, r)) = p_logical(ts, q + 1) {
            shift_expect(ts, ts2, r, TokenType::End);
        }
    } else {
        shift_expect(ts, ts2, q, TokenType::End);
    }
}

proof fn shift_function(ts: Seq<TokenView>, ts2: Seq<TokenView>, p: int)
    requires
        one_in_front(ts2, ts),
        0 <= p,
    ensures
        p_function(ts2, p + 1) == shifted(p_function(ts, p)),
        ends_within(p_function(ts, p), p, ts.len() as int, true),
    decreases ts.len() - p, 3int,
{
    shift_expect(ts, ts2, p + 1, TokenType::LParen);
    if let Ok(p2) = spec_expect(ts, p + 1, TokenType::LParen) {
        shift_function_args(ts, ts2, p2);
        if let Ok((args, q)) = function_args(ts, p2) {
            shift_expect(ts, ts2, q, TokenType::RParen);
        }
    }
}

proof fn shift_function_args(ts: Seq<TokenView>, ts2: Seq<TokenView>, p: int)
    requires
        one_in_front(ts2, ts),
        0 <= p <= ts.len(),
    ensures
        function_args(ts2, p + 1) == shifted_list(function_args(ts, p)),
        list_ends_within(function_args(ts, p), p, ts.len() as int, false),
    decreases ts.len() - p, 10int,
{
    if tok_ty(ts, p) != Some(TokenType::RParen) {
        shift_logical(ts, ts2, p);
        if let Ok((first, q)) = p_logical(ts, p) {
            shift_args_loop(ts, ts2, q, seq![first]);
        }
    }
}

proof fn shift_args_loop(ts: Seq<TokenView>, ts2: Seq<TokenView>, q: int, args: Seq<SAst>)
    requires
        one_in_front(ts2, ts),
        0 <= q <= ts.len(),
    ensures
        args_loop(ts2, q + 1, args) == shifted_list(args_loop(ts, q, args)),
        list_ends_within(args_loop(ts, q, args), q, ts.len() as int, false),
    decreases ts.len() - q, 2int,
{
    if tok_ty(ts, q) == Some(TokenType::Comma) {
        shift_logical(ts, ts2, q + 1);
        if let Ok((a, r)) = p_logical(ts, q + 1) {
            shift_args_loop(ts, ts2, r, args.push(a));
        }
    }
}

/// `SELECT` in front of an expression changes nothing: the tokens of an
/// expression parse to the same tree, or fail with the same message, with
/// and without a leading `SELECT`.
pub proof fn law_select_is_optional(select: TokenView, ts: Seq<TokenView>)
    requires
        select.ty == TokenType::Select,
        ts.len() > 0,
        ts[0].ty != TokenType::Select,
    ensures
        spec_parse(seq![select] + ts) == spec_parse(ts),
{
    let ts2 = seq![select] + ts;
    assert forall|p: int| 0 <= p < ts.len() implies #[trigger] ts2[p + 1] == ts[p] by {}
    shift_logical(ts, ts2, 0);
    if let Ok((e, q)) = p_logical(ts, 0) {
        if q < ts.len() {
            assert(ts2[q + 1] == ts[q]);
        }
    }
}

// ── the shape of a parsed tree ──

/// No `Select` node anywhere in the tree.
pub open spec fn select_free(n: SAst) -> bool
    decreases n, 0int,
{
    match n {
        SAst::Select(_) => false,
        SAst::BinaryOp { op, left, right } => select_free(*left) && select_free(*right),
        SAst::CaseExpr { whens, else_clause } => whens_select_free(whens, 0) && match else_clause {
            Some(e) => select_free(*e),
            None => true,
        },
        SAst::FunctionCall { name, args } => all_select_free(args, 0),
        SAst::InExpr { expr, items } => select_free(*expr) && all_select_free(items, 0),
        SAst::NotInExpr { expr, items } => select_free(*expr) && all_select_free(items, 0),
        SAst::LikeExpr { expr, pattern } => select_free(*expr) && select_free(*pattern),
        SAst::NotLikeExpr { expr, pattern } => select_free(*expr) && select_free(*pattern),
        _ => true,
    }
}

/// No `Select` node in the trees from number `i` on.
pub open spec fn all_select_free(s: Seq<SAst>, i: int) -> bool
    decreases s, s.len() - i,
{
    if i < 0 || i >= s.len() {
        true
    } else {
        select_free(s[i]) && all_select_free(s, i + 1)
    }
}

/// No `Select` node in the `WHEN` arms from number `i` on.
pub open spec fn whens_select_free(s: Seq<SWhen>, i: int) -> bool
    decreases s, s.len() - i,
{
    if i < 0 || i >= s.len() {
        true
    } else {
        select_free(s[i].condition) && select_free(s[i].result) && whens_select_free(s, i + 1)
    }
}

proof fn lemma_all_select_free(s: Seq<SAst>, i: int)
    requires
        0 <= i,
    ensures
        all_select_free(s, i) <==> forall|j: int| i <= j < s.len() ==> select_free(#[trigger] s[j]),
    decreases s.len() - i,
{
    if i < s.len() {
        lemma_all_select_free(s, i + 1);
    }
}

proof fn lemma_whens_select_free(s: Seq<SWhen>, i: int)
    requires
        0 <= i,
    ensures
        whens_select_free(s, i) <==> forall|j: int|
            i <= j < s.len() ==> select_free((#[trigger] s[j]).condition) && select_free(
                s[j].result,
            ),
    decreases s.len() - i,
{
    if i < s.len() {
        lemma_whens_select_free(s, i + 1);
    }
}

proof fn lemma_push_free(s: Seq<SAst>, x: SAst)
    requires
        all_select_free(s, 0),
        select_free(x),
    ensures
        all_select_free(s.push(x), 0),
{
    lemma_all_select_free(s, 0);
    lemma_all_select_free(s.push(x), 0);
    assert forall|j: int| 0 <= j < s.push(x).len() implies select_free(#[trigger] s.push(x)[j]) by {
        if j < s.len() {
            assert(s.push(x)[j] == s[j]);
        }
    }
}

proof fn lemma_push_when_free(s: Seq<SWhen>, w: SWhen)
    requires
        whens_select_free(s, 0),
        select_free(w.condition),
        select_free(w.result),
    ensures
        whens_select_free(s.push(w), 0),
{
    lemma_whens_select_free(s, 0);
    lemma_whens_select_free(s.push(w), 0);
    assert forall|j: int| 0 <= j < s.push(w).len() implies select_free(
        (#[trigger] s.push(w)[j]).condition,
    ) && select_free(s.push(w)[j].result) by {
        if j < s.len() {
            assert(s.push(w)[j] == s[j]);
        }
    }
}

/// A parse outcome whose tree has no `Select` node.
pub open spec fn free_result(r: ParseResult) -> bool {
    r matches Ok((n, _)) ==> select_free(n)
}

pub open spec fn free_list(r: Result<(Seq<SAst>, int), Seq<char>>) -> bool {
    r matches Ok((l, _)) ==> all_select_free(l, 0)
}

proof fn free_logical(ts: Seq<TokenView>, p: int)
    ensures
        free_result(p_logical(ts, p)),
    decreases ts.len() - p, 9int,
{
    free_comparison(ts, p);
    if let Ok((left, q)) = p_comparison(ts, p) {
        if p <= q <= ts.len() && (tok_ty(ts, q) == Some(TokenType::And) || tok_ty(ts, q) == Some(
            TokenType::Or,
        )) {
            free_logical_loop(ts, q, left, tok_ty(ts, q).unwrap());
        }
    }
}

proof fn free_logical_loop(ts: Seq<TokenView>, q: int, left: SAst, op: TokenType)
    requires
        select_free(left),
    ensures
        free_result(logical_loop(ts, q, left, op)),
    decreases ts.len() - q, 8int,
{
    if tok_ty(ts, q) == Some(op) {
        free_comparison(ts, q + 1);
        if let Ok((right, r)) = p_comparison(ts, q + 1) {
            let node = SAst::BinaryOp {
                op: if op == TokenType::And {
                    BinOp::And
                } else {
                    BinOp::Or
                },
                left: Box::new(left),
                right: Box::new(right),
            };
            if q < r <= ts.len() {
                free_logical_loop(ts, r, node, op);
            }
        }
    }
}

proof fn free_comparison(ts: Seq<TokenView>, p: int)
    ensures
        free_result(p_comparison(ts, p)),
    decreases ts.len() - p, 7int,
{
    free_arith(ts, p);
    if let Ok((left, q)) = p_arith(ts, p) {
        if p <= q <= ts.len() {
            free_comparison_tail(ts, q, left);
        }
    }
}

proof fn free_comparison_tail(ts: Seq<TokenView>, q: int, left: SAst)
    requires
        select_free(left),
    ensures
        free_result(comparison_tail(ts, q, left)),
    decreases ts.len() - q, 6int,
{
    reveal_with_fuel(select_free, 2);
    if is_comparison_token(tok_ty(ts, q)) {
        free_arith(ts, q + 1);
    } else if tok_ty(ts, q) == Some(TokenType::Is) {
        assert(free_result(is_tail(ts, q, left)));
    } else if tok_ty(ts, q) == Some(TokenType::Not) {
        free_not_tail(ts, q, left);
    } else if tok_ty(ts, q) == Some(TokenType::In) {
        free_in_list(ts, q + 1);
    } else if tok_ty(ts, q) == Some(TokenType::Like) {
        free_primary(ts, q + 1);
    }
}

proof fn free_not_tail(ts: Seq<TokenView>, q: int, left: SAst)
    requires
        select_free(left),
    ensures
        free_result(not_tail(ts, q, left)),
    decreases ts.len() - q, 5int,
{
    if tok_ty(ts, q + 1) == Some(TokenType::In) {
        free_in_list(ts, q + 2);
    } else if tok_ty(ts, q + 1) == Some(TokenType::Like) {
        free_primary(ts, q + 2);
    }
}

proof fn free_in_list(ts: Seq<TokenView>, p: int)
    ensures
        free_list(p_in_list(ts, p)),
    decreases ts.len() - p, 2int,
{
    if let Ok(p1) = spec_expect(ts, p, TokenType::LParen) {
        free_logical(ts, p1);
        if let Ok((first, q)) = p_logical(ts, p1) {
            if p1 <= q <= ts.len() {
                lemma_push_free(Seq::empty(), first);
                assert(seq![first] == Seq::<SAst>::empty().push(first));
                free_in_list_loop(ts, q, seq![first]);
            }
        }
    }
}

proof fn free_in_list_loop(ts: Seq<TokenView>, q: int, items: Seq<SAst>)
    requires
        all_select_free(items, 0),
    ensures
        free_list(in_list_loop(ts, q, items)),
    decreases ts.len() - q, 1int,
{
    if tok_ty(ts, q) == Some(TokenType::Comma) {
        free_logical(ts, q + 1);
        if let Ok((item, r)) = p_logical(ts, q + 1) {
            if q < r <= ts.len() {
                lemma_push_free(items, item);
                free_in_list_loop(ts, r, items.push(item));
            }
        }
    }
}

proof fn free_arith(ts: Seq<TokenView>, p: int)
    ensures
        free_result(p_arith(ts, p)),
    decreases ts.len() - p, 6int,
{
    free_primary(ts, p);
    if let Ok((left, q)) = p_primary(ts, p) {
        if p <= q <= ts.len() {
            if let Some(g) = arith_group(tok_ty(ts, q)) {
                free_arith_loop(ts, q, left, g);
            }
        }
    }
}

proof fn free_arith_loop(ts: Seq<TokenView>, q: int, left: SAst, g: int)
    requires
        select_free(left),
    ensures
        free_result(arith_loop(ts, q, left, g)),
    decreases ts.len() - q, 5int,
{
    if let Some(g2) = arith_group(tok_ty(ts, q)) {
        if g2 == g {
            free_primary(ts, q + 1);
            if let Ok((right, r)) = p_primary(ts, q + 1) {
                let node = SAst::BinaryOp {
                    op: arith_op(tok_ty(ts, q).unwrap()),
                    left: Box::new(left),
                    right: Box::new(right),
                };
                if q < r <= ts.len() {
                    free_arith_loop(ts, r, node, g);
                }
            }
        }
    }
}

proof fn free_primary(ts: Seq<TokenView>, p: int)
    ensures
        free_result(p_primary(ts, p)),
    decreases ts.len() - p, 4int,
{
    if let Some(t) = tok_ty(ts, p) {
        if t == TokenType::LParen {
            free_logical(ts, p + 1);
        } else if t == TokenType::Case {
            free_case(ts, p);
        } else if is_function_token(t) {
            free_function(ts, p);
        }
    }
}

proof fn free_case(ts: Seq<TokenView>, p: int)
    ensures
        free_result(p_case(ts, p)),
    decreases ts.len() - p, 3int,
{
    if let Ok(p1) = spec_expect(ts, p, TokenType::Case) {
        free_case_loop(ts, p1, Seq::empty());
    }
}

proof fn free_case_loop(ts: Seq<TokenView>, q: int, whens: Seq<SWhen>)
    requires
        whens_select_free(whens, 0),
    ensures
        free_result(case_loop(ts, q, whens)),
    decreases ts.len() - q, 2int,
{
    if tok_ty(ts, q) == Some(TokenType::When) {
        free_logical(ts, q + 1);
        if let Ok((cond, r)) = p_logical(ts, q + 1) {
            if q < r <= ts.len() {
                if let Ok(r1) = spec_expect(ts, r, TokenType::Then) {
                    free_logical(ts, r1);
                    if let Ok((res, s)) = p_logical(ts, r1) {
                        if q < s <= ts.len() {
                            let w = SWhen { condition: cond, result: res };
                            lemma_push_when_free(whens, w);
                            free_case_loop(ts, s, whens.push(w));
                        }
                    }
                }
            }
        }
    } else if whens.len() == 0 {
    } else if tok_ty(ts, q) == Some(TokenType::Else) {
        free_logical(ts, q + 1);
    }
}

proof fn free_function(ts: Seq<TokenView>, p: int)
    ensures
        free_result(p_function(ts, p)),
    decreases ts.len() - p, 3int,
{
    if let Ok(p2) = spec_expect(ts, p + 1, TokenType::LParen) {
        free_function_args(ts, p2);
    }
}

proof fn free_function_args(ts: Seq<TokenView>, p: int)
    ensures
        free_list(function_args(ts, p)),
    decreases ts.len() - p, 10int,
{
    if tok_ty(ts, p) != Some(TokenType::RParen) {
        free_logical(ts, p);
        if let Ok((first, q)) = p_logical(ts, p) {
            if p <= q <= ts.len() {
                lemma_push_free(Seq::empty(), first);
                assert(seq![first] == Seq::<SAst>::empty().push(first));
                free_args_loop(ts, q, seq![first]);
            }
        }
    }
}

proof fn free_args_loop(ts: Seq<TokenView>, q: int, args: Seq<SAst>)
    requires
        all_select_free(args, 0),
    ensures
        free_list(args_loop(ts, q, args)),
    decreases ts.len() - q, 2int,
{
    if tok_ty(ts, q) == Some(TokenType::Comma) {
        free_logical(ts, q + 1);
        if let Ok((a, r)) = p_logical(ts, q + 1) {
            if q < r <= ts.len() {
                lemma_push_free(args, a);
                free_args_loop(ts, r, args.push(a));
            }
        }
    }
}

/// A parsed expression is one `Select` node at the top, with no other
/// `Select` node anywhere below it.
pub proof fn law_select_only_at_top(input: Seq<char>)
    ensures
        spec_parse_text(input) matches Ok(n) ==> (n matches SAst::Select(inner) && select_free(
            *inner,
        )),
{
    if let Ok(ts) = spec_tokenize(input) {
        if ts.len() > 0 {
            let p = if tok_ty(ts, 0) == Some(TokenType::Select) {
                1int
            } else {
                0int
            };
            free_logical(ts, p);
        }
    }
}

// ── the order of texts ──

/// Texts are ordered lexicographically by character code: at the first
/// place where they differ, the text with the smaller character is less.
pub proof fn law_text_order_is_lexicographic(a: Seq<char>, c: char, d: char, x: Seq<char>, y: Seq<char>)
    requires
        c < d,
    ensures
        text_order(a + seq![c] + x, a + seq![d] + y) == -1,
        text_order(a + seq![d] + y, a + seq![c] + x) == 1,
    decreases a.len(),
{
    let l = a + seq![c] + x;
    let r = a + seq![d] + y;
    if a.len() > 0 {
        law_text_order_is_lexicographic(a.drop_first(), c, d, x, y);
        assert(l.drop_first() =~= a.drop_first() + seq![c] + x);
        assert(r.drop_first() =~= a.drop_first() + seq![d] + y);
        assert(l[0] == r[0]);
    } else {
        assert(l[0] == c);
        assert(r[0] == d);
    }
}

/// A proper prefix of a text comes before it.
pub proof fn law_text_order_prefix_first(a: Seq<char>, c: char, x: Seq<char>)
    ensures
        text_order(a, a + seq![c] + x) == -1,
        text_order(a + seq![c] + x, a) == 1,
    decreases a.len(),
{
    let r = a + seq![c] + x;
    if a.len() > 0 {
        law_text_order_prefix_first(a.drop_first(), c, x);
        assert(r.drop_first() =~= a.drop_first() + seq![c] + x);
        assert(r[0] == a[0]);
    }
}

// ── LIKE ──

/// A pattern character with no meaning in a LIKE pattern or a regular
/// expression.
pub open spec fn plain_pattern_char(ch: char) -> bool {
    ch != '%' && ch != '_' && !crate::evaluator::is_regex_special(ch)
}

proof fn lemma_like_body_plain(p: Seq<char>)
    requires
        forall|i: int| 0 <= i < p.len() ==> plain_pattern_char(#[trigger] p[i]),
    ensures
        crate::evaluator::like_body(p) == p,
    decreases p.len(),
{
    if p.len() > 0 {
        lemma_like_body_plain(p.drop_last());
        assert(p.drop_last().push(p.last()) =~= p);
    }
}

/// The regular expression of a LIKE pattern is anchored at both ends and
/// case-insensitive: it starts with `(?i)^` and ends with a `$`, and a
/// pattern without wildcards or special characters is matched literally,
/// as the whole text (`(?i)^pattern$`).
pub proof fn law_like_matches_whole_text(p: Seq<char>)
    ensures
        crate::evaluator::like_regex(p).take(5) == "(?i)^"@,
        crate::evaluator::like_regex(p).last() == '$',
        (forall|i: int| 0 <= i < p.len() ==> plain_pattern_char(#[trigger] p[i]))
            ==> crate::evaluator::like_regex(p) == "(?i)^"@ + p + "$"@,
        forall|t: Seq<char>| crate::evaluator::like_matches(t, p) == (match spec_regex_search(
            crate::evaluator::like_regex(p),
            t,
        ) {
            Some(b) => b,
            None => false,
        }),
{
    reveal_strlit("(?i)^");
    reveal_strlit("$");
    let re = crate::evaluator::like_regex(p);
    assert(re.take(5) =~= "(?i)^"@);
    if forall|i: int| 0 <= i < p.len() ==> plain_pattern_char(#[trigger] p[i]) {
        lemma_like_body_plain(p);
    }
}

// ── ABS ──

proof fn lemma_abs_call(args: Seq<SAst>, ctx: CtxView, env: EnvView, k: nat)
    ensures
        eval(SAst::FunctionCall { name: "ABS"@, args }, ctx, env, k) == crate::evaluator::eval_abs(
            args,
            ctx,
            env,
            k,
        ),
{
    reveal_strlit("ABS");
    reveal_strlit("ROUND");
    reveal_strlit("COALESCE");
    reveal_strlit("UPPER");
    reveal_strlit("LOWER");
    assert(eval(SAst::FunctionCall { name: "ABS"@, args }, ctx, env, k) == eval_call(
        "ABS"@,
        args,
        ctx,
        env,
        k,
    ));
    assert("ABS"@ != "ROUND"@);
    assert("ABS"@ != "COALESCE"@);
    assert("ABS"@ != "UPPER"@);
    assert("ABS"@ != "LOWER"@);
}

/// ABS of a value that reads as a decimal `d` is a decimal of the same
/// digits and scale that is not negative: its numeric value is `|d|`, and a
/// value that is not negative is left as it is.
pub proof fn law_abs_is_absolute_value(e: SAst, ctx: CtxView, env: EnvView, k: nat)
    requires
        eval(e, ctx, env, k).0 matches Ok(v) && !(v is Null) && crate::evaluator::to_decimal(
            v,
        ) is Ok,
    ensures
        ({
            let d = crate::evaluator::to_decimal(eval(e, ctx, env, k).0->Ok_0)->Ok_0;
            eval(SAst::FunctionCall { name: "ABS"@, args: seq![e] }, ctx, env, k) matches (
                Ok(SValue::Decimal(r)),
                k1,
            ) && k1 == eval(e, ctx, env, k).1 && !r.negative && r.magnitude == d.magnitude
                && r.scale == d.scale && crate::decimal::signed_magnitude(r) == (if d.negative {
                -crate::decimal::signed_magnitude(d)
            } else {
                crate::decimal::signed_magnitude(d)
            }) && (!d.negative ==> dec_order(r, d) == 0)
        }),
{
    lemma_abs_call(seq![e], ctx, env, k);
}

// ── EVENT ──

proof fn lemma_event_call(args: Seq<SAst>, ctx: CtxView, env: EnvView, k: nat)
    ensures
        eval(SAst::FunctionCall { name: "EVENT"@, args }, ctx, env, k)
            == crate::evaluator::eval_event(args, ctx, env, k),
{
    reveal_strlit("EVENT");
    reveal_strlit("ABS");
    reveal_strlit("ROUND");
    reveal_strlit("COALESCE");
    reveal_strlit("UPPER");
    reveal_strlit("LOWER");
    reveal_strlit("CONCAT");
    assert(eval(SAst::FunctionCall { name: "EVENT"@, args }, ctx, env, k) == eval_call(
        "EVENT"@,
        args,
        ctx,
        env,
        k,
    ));
    assert("EVENT"@[0] != "ROUND"@[0]);
    assert("EVENT"@ != "ROUND"@);
    assert("EVENT"@ != "COALESCE"@);
    assert("EVENT"@[0] != "UPPER"@[0]);
    assert("EVENT"@ != "UPPER"@);
    assert("EVENT"@[0] != "LOWER"@[0]);
    assert("EVENT"@ != "LOWER"@);
    assert("EVENT"@ != "ABS"@);
    assert("EVENT"@ != "CONCAT"@);
}

/// What the event resolver is asked when `EVENT(t, s)` or `EVENT(t, s, src)`
/// has evaluated its first two arguments to `tv` and `sv` (their texts
/// joined by a dot are not in progress): the texts of `tv` and `sv`, and
/// the context of the evaluation itself, or with a third argument the
/// nested context it names. The next answer is the result; without one,
/// evaluation stops and asks exactly that.
pub proof fn law_event_asks_for_its_context(
    args: Seq<SAst>,
    ctx: CtxView,
    env: EnvView,
    k: nat,
)
    requires
        2 <= args.len() <= 3,
        env.has_event_resolver,
        eval(args[0], ctx, env, k).0 is Ok,
        eval(args[1], ctx, env, eval(args[0], ctx, env, k).1).0 is Ok,
        !env.visited.contains(
            value_text(eval(args[0], ctx, env, k).0->Ok_0) + "."@ + value_text(
                eval(args[1], ctx, env, eval(args[0], ctx, env, k).1).0->Ok_0,
            ),
        ),
        args.len() == 3 ==> (args[2] matches SAst::Identifier(src) && lookup(ctx.nested, src)
            is Some),
    ensures
        ({
            let k1 = eval(args[0], ctx, env, k).1;
            let tv = eval(args[0], ctx, env, k).0->Ok_0;
            let sv = eval(args[1], ctx, env, k1).0->Ok_0;
            let k2 = eval(args[1], ctx, env, k1).1;
            let source = if args.len() == 2 {
                ctx
            } else {
                lookup(ctx.nested, args[2]->Identifier_0)->0
            };
            eval(SAst::FunctionCall { name: "EVENT"@, args }, ctx, env, k) == if k2
                < env.answers.len() {
                (
                    match env.answers[k2 as int] {
                        Ok(v) => Ok(v),
                        Err(m) => Err(Stop::Fail(m)),
                    },
                    k2 + 1,
                )
            } else {
                (
                    Err::<SValue, Stop>(
                        Stop::Need(
                            crate::evaluator::SRequest::Event(
                                value_text(tv),
                                value_text(sv),
                                source,
                            ),
                        ),
                    ),
                    k2,
                )
            }
        }),
{
    lemma_event_call(args, ctx, env, k);
}

// ── IS [NOT] ──

/// The literal that `NULL`, `TRUE` or `FALSE` stands for after `IS`.
pub open spec fn is_literal(t: Option<TokenType>) -> Option<SAst> {
    match t {
        Some(TokenType::Null) => Some(SAst::NullLit),
        Some(TokenType::True) => Some(SAst::BoolLit(true)),
        Some(TokenType::False) => Some(SAst::BoolLit(false)),
        _ => None,
    }
}

/// `e IS L` is the comparison `e = L`, and `e IS NOT L` the comparison
/// `e != L`, for each of `NULL`, `TRUE`, `FALSE`; so `e IS NOT L`
/// evaluates to the negation of `e IS L` (see [`law_neq_negates_eq`]).
pub proof fn law_is_not_negates_is(ts: Seq<TokenView>, q: int, left: SAst)
    requires
        tok_ty(ts, q) == Some(TokenType::Is),
    ensures
        is_literal(tok_ty(ts, q + 1)) matches Some(l) ==> comparison_tail(ts, q, left) == Ok::<
            (SAst, int),
            Seq<char>,
        >((SAst::BinaryOp { op: BinOp::Eq, left: Box::new(left), right: Box::new(l) }, q + 2)),
        tok_ty(ts, q + 1) == Some(TokenType::Not) ==> (is_literal(tok_ty(ts, q + 2)) matches Some(l)
            ==> comparison_tail(ts, q, left) == Ok::<(SAst, int), Seq<char>>(
            (SAst::BinaryOp { op: BinOp::Neq, left: Box::new(left), right: Box::new(l) }, q + 3),
        )),
{
}

} // verus!
