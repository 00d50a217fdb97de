use vstd::prelude::*;

pub mod ast;
pub mod decimal;
pub mod evaluator;
pub mod laws;
pub mod lexer;
pub mod parser;
pub mod text;
pub mod tokens;

use crate::ast::{AstNode, SAst};
use crate::evaluator::{
    are_replies, evaluate, evaluate_plain, options_env, result_view, spec_evaluate_plain,
    spec_step, Context, EvalOptions, SStep, SValue, Value,
};
use crate::lexer::{spec_tokenize, tokenize};
use crate::parser::{ast_result_view, spec_parse};

verus! {

/// The error of every failing operation: a message.
#[derive(Debug, Clone)]
pub struct DsqlexError(pub String);

impl DsqlexError {
    /// A copy of this error.
    pub fn duplicate(&self) -> (r: DsqlexError)
        ensures
            r@ == self@,
    {
        DsqlexError(self.0.clone())
    }

    /// The message of this error.
    pub fn message(&self) -> (r: &str)
        ensures
            r@ == self@,
    {
        self.0.as_str()
    }
}

impl View for DsqlexError {
    type V = Seq<char>;

    open spec fn view(&self) -> Seq<char> {
        self.0@
    }
}


/// What parsing `input` gives: the tree, or the first error of the
/// tokenizer or of the parser.
pub open spec fn spec_parse_text(input: Seq<char>) -> Result<SAst, Seq<char>> {
    match spec_tokenize(input) {
        Err(m) => Err(m),
        Ok(ts) => spec_parse(ts),
    }
}

/// What evaluating `input` without resolvers gives.
pub open spec fn spec_eval_text(input: Seq<char>, ctx: crate::evaluator::CtxView) -> Result<
    SValue,
    Seq<char>,
> {
    match spec_parse_text(input) {
        Err(m) => Err(m),
        Ok(n) => spec_evaluate_plain(n, ctx),
    }
}

/// Parses an expression into its tree.
pub fn parse(expression: &str) -> (r: Result<AstNode, DsqlexError>)
    ensures
        ast_result_view(r) == spec_parse_text(expression@),
{
    let tokens = match tokenize(expression) {
        Ok(ts) => ts,
        Err(e) => return Err(e),
    };
    crate::parser::parse(tokens)
}

/// Evaluates a parsed expression in a context, without resolvers.
pub fn eval(ast: &AstNode, ctx: &Context) -> (r: Result<Value, DsqlexError>)
    ensures
        result_view(r) == spec_evaluate_plain(ast@, ctx@),
{
    evaluate_plain(ast, ctx)
}

/// Evaluates a parsed expression with the resolvers of `opts`: the result
/// is what evaluation gives when each request is answered by a reply of
/// the resolvers.
pub fn eval_with_options<R, E>(ast: &AstNode, ctx: &Context, opts: &EvalOptions<R, E>) -> (r: Result<
    Value,
    DsqlexError,
>) where
    R: Fn(&str, &Vec<String>) -> Result<Value, DsqlexError>,
    E: Fn(&str, &str, &Context, &Vec<String>) -> Result<Value, DsqlexError>,

    requires
        opts.resolver matches Some(f) ==> forall|a: &str, b: &Vec<String>| #[trigger]
            f.requires((a, b)),
        opts.event_resolver matches Some(g) ==> forall|
            a: &str,
            b: &str,
            c: &Context,
            d: &Vec<String>,
        | #[trigger] g.requires((a, b, c, d)),
    ensures
        exists|answers: Seq<Result<SValue, Seq<char>>>|
            are_replies(ast@, ctx@, opts, answers) && spec_step(
                ast@,
                ctx@,
                options_env(opts, answers),
            ) == SStep::Done(result_view(r)),
{
    evaluate(ast, ctx, opts)
}

/// Parses and evaluates an expression in a context, without resolvers.
pub fn eval_string(expression: &str, ctx: &Context) -> (r: Result<Value, DsqlexError>)
    ensures
        result_view(r) == spec_eval_text(expression@, ctx@),
{
    let ast = match parse(expression) {
        Ok(a) => a,
        Err(e) => return Err(e),
    };
    eval(&ast, ctx)
}

/// Parses and evaluates an expression with the resolvers of `opts`.
pub fn eval_string_with_options<R, E>(expression: &str, ctx: &Context, opts: &EvalOptions<R, E>) -> (r:
    Result<Value, DsqlexError>) where
    R: Fn(&str, &Vec<String>) -> Result<Value, DsqlexError>,
    E: Fn(&str, &str, &Context, &Vec<String>) -> Result<Value, DsqlexError>,

    requires
        opts.resolver matches Some(f) ==> forall|a: &str, b: &Vec<String>| #[trigger]
            f.requires((a, b)),
        opts.event_resolver matches Some(g) ==> forall|
            a: &str,
            b: &str,
            c: &Context,
            d: &Vec<String>,
        | #[trigger] g.requires((a, b, c, d)),
    ensures
        match spec_parse_text(expression@) {
            Err(m) => r matches Err(e) && e@ == m,
            Ok(n) => exists|answers: Seq<Result<SValue, Seq<char>>>|
                are_replies(n, ctx@, opts, answers) && spec_step(n, ctx@, options_env(opts, answers))
                    == SStep::Done(result_view(r)),
        },
{
    let ast = match parse(expression) {
        Ok(a) => a,
        Err(e) => return Err(e),
    };
    eval_with_options(&ast, ctx, opts)
}

} // verus!
