use dsqlex::ast::AstNode;
use dsqlex::decimal::Dec;
use dsqlex::evaluator::{Context, EvalOptions, Value};
use dsqlex::lexer::{keyword_lookup, tokenize};
use dsqlex::tokens::TokenType;
use dsqlex::DsqlexError;

type FieldFn = fn(&str, &Vec<String>) -> Result<Value, DsqlexError>;
type EventFn = fn(&str, &str, &Context, &Vec<String>) -> Result<Value, DsqlexError>;

fn dec(s: &str) -> Dec {
    Dec::parse(s).unwrap()
}

fn eval(expr: &str, ctx: &Context) -> Result<Value, DsqlexError> {
    dsqlex::eval_string(expr, ctx)
}

fn error_of(expr: &str, ctx: &Context) -> String {
    match eval(expr, ctx) {
        Ok(v) => panic!("expected an error, got {:?}", v),
        Err(e) => e.message().to_string(),
    }
}

fn parse_error_of(expr: &str) -> String {
    match dsqlex::parse(expr) {
        Ok(_) => panic!("expected a parse error"),
        Err(e) => e.0,
    }
}

// ── laws, on concrete values ──

#[test]
fn and_stops_at_a_false_left_operand() {
    let ctx = Context::new();
    assert_eq!(eval("FALSE AND missing", &ctx).unwrap(), Value::Bool(false));
    assert_eq!(eval("NULL AND missing", &ctx).unwrap(), Value::Null);
    assert_eq!(error_of("TRUE AND missing", &ctx), "Unknown field: missing");
}

#[test]
fn or_stops_at_a_true_left_operand() {
    let ctx = Context::new();
    assert_eq!(eval("TRUE OR missing", &ctx).unwrap(), Value::Bool(true));
    assert_eq!(eval("'x' OR missing", &ctx).unwrap(), Value::string("x"));
    assert_eq!(error_of("FALSE OR missing", &ctx), "Unknown field: missing");
}

#[test]
fn not_equal_negates_equal() {
    let ctx = Context::new();
    for (a, b) in [("1", "1.0"), ("1", "2"), ("'a'", "'a'"), ("'a'", "'b'"), ("NULL", "NULL"), ("TRUE", "'TRUE'")] {
        let eq = eval(&format!("{} = {}", a, b), &ctx).unwrap();
        let ne = eval(&format!("{} != {}", a, b), &ctx).unwrap();
        match (eq, ne) {
            (Value::Bool(x), Value::Bool(y)) => assert_eq!(x, !y),
            _ => panic!("expected booleans"),
        }
    }
    assert_eq!(eval("NULL IS NOT NULL", &ctx).unwrap(), Value::Bool(false));
    assert_eq!(eval("NULL IS NULL", &ctx).unwrap(), Value::Bool(true));
}

#[test]
fn not_in_negates_in() {
    let ctx = Context::new();
    assert_eq!(eval("2 IN (1, 2)", &ctx).unwrap(), Value::Bool(true));
    assert_eq!(eval("2 NOT IN (1, 2)", &ctx).unwrap(), Value::Bool(false));
    assert_eq!(eval("3 NOT IN (1, 2)", &ctx).unwrap(), Value::Bool(true));
    assert_eq!(error_of("3 NOT IN (1, missing)", &ctx), "Unknown field: missing");
    // The items after the first match are not evaluated.
    assert_eq!(eval("1 IN (1, missing)", &ctx).unwrap(), Value::Bool(true));
}

#[test]
fn not_like_negates_like() {
    let ctx = Context::new();
    assert_eq!(eval("'Apple' LIKE 'a%'", &ctx).unwrap(), Value::Bool(true));
    assert_eq!(eval("'Apple' NOT LIKE 'a%'", &ctx).unwrap(), Value::Bool(false));
    assert_eq!(eval("NULL LIKE 'a%'", &ctx).unwrap(), Value::Null);
    assert_eq!(eval("NULL NOT LIKE 'a%'", &ctx).unwrap(), Value::Null);
    assert_eq!(eval("'a.c' LIKE 'a_c'", &ctx).unwrap(), Value::Bool(true));
    assert_eq!(eval("'abc' LIKE 'a.c'", &ctx).unwrap(), Value::Bool(false));
}

#[test]
fn context_comes_before_the_resolver() {
    let mut ctx = Context::new();
    ctx.set_decimal("rate", "2");
    let opts = EvalOptions {
        resolver: Some(|_name: &str, _visited: &Vec<String>| Ok(Value::Decimal(dec("999")))),
        event_resolver: None::<EventFn>,
        visited: Vec::new(),
    };
    let ast = dsqlex::parse("rate + other").unwrap();
    assert_eq!(dsqlex::eval_with_options(&ast, &ctx, &opts).unwrap(), Value::Decimal(dec("1001")));
}

#[test]
fn comparison_is_antisymmetric() {
    let ctx = Context::new();
    let pairs = [("1", "2"), ("'10'", "'9'"), ("'a'", "'b'"), ("TRUE", "FALSE"), ("2.50", "'2.5'")];
    for (a, b) in pairs {
        let lt = eval(&format!("{} < {}", a, b), &ctx).unwrap();
        let gt = eval(&format!("{} > {}", b, a), &ctx).unwrap();
        assert_eq!(lt, gt);
        let le = eval(&format!("{} <= {}", a, b), &ctx).unwrap();
        let ge = eval(&format!("{} >= {}", b, a), &ctx).unwrap();
        assert_eq!(le, ge);
    }
    // Strings that read as numbers compare as numbers.
    assert_eq!(eval("'10' > '9'", &ctx).unwrap(), Value::Bool(true));
    // NULL is comparable with nothing but NULL.
    assert_eq!(eval("NULL < 1", &ctx).unwrap(), Value::Bool(false));
    assert_eq!(eval("1 < NULL", &ctx).unwrap(), Value::Bool(false));
}

#[test]
fn every_value_equals_itself() {
    let ctx = Context::new();
    for v in ["1.50", "'text'", "TRUE", "FALSE", "NULL", "'2.0'"] {
        assert_eq!(eval(&format!("{} = {}", v, v), &ctx).unwrap(), Value::Bool(true));
    }
    assert_eq!(Value::Decimal(dec("1.0")), Value::Decimal(dec("1")));
    assert_ne!(Value::string("1"), Value::Decimal(dec("1")));
}

#[test]
fn coalesce_gives_the_first_value_that_is_not_null() {
    let ctx = Context::new();
    assert_eq!(eval("COALESCE(NULL, NULL, 3, missing)", &ctx).unwrap(), Value::Decimal(dec("3")));
    assert_eq!(eval("NVL(NULL, 'b')", &ctx).unwrap(), Value::string("b"));
    assert_eq!(eval("COALESCE(NULL, NULL)", &ctx).unwrap(), Value::Null);
    assert_eq!(eval("COALESCE()", &ctx).unwrap(), Value::Null);
}

#[test]
fn case_gives_the_first_true_arm() {
    let ctx = Context::new();
    assert_eq!(
        eval("CASE WHEN FALSE THEN 1 WHEN 0 THEN 2 WHEN TRUE THEN missing END", &ctx).unwrap(),
        Value::Decimal(dec("2"))
    );
    assert_eq!(eval("CASE WHEN NULL THEN 1 ELSE 'else' END", &ctx).unwrap(), Value::string("else"));
    assert_eq!(eval("CASE WHEN FALSE THEN 1 END", &ctx).unwrap(), Value::Null);
}

#[test]
fn dotted_names_reach_nested_contexts() {
    let mut inner = Context::new();
    inner.set_string("name", "deep");
    let mut ctx = Context::new();
    ctx.set_nested("outer", inner);
    ctx.set_string("outer.name", "shadowing field");
    assert_eq!(eval("outer.name", &ctx).unwrap(), Value::string("shadowing field"));
    let mut inner2 = Context::new();
    inner2.set_bool("flag", true);
    let mut ctx2 = Context::new();
    ctx2.set_nested("cfg", inner2);
    assert_eq!(eval("cfg.flag", &ctx2).unwrap(), Value::Bool(true));
    assert_eq!(error_of("cfg.other", &ctx2), "Unknown field: other");
}

#[test]
fn keywords_ignore_case() {
    let a = tokenize("select CaSe When x then 'Str' else nvl(y) end").unwrap();
    let b = tokenize("SELECT CASE WHEN X THEN 'STR' ELSE NVL(Y) END").unwrap();
    assert_eq!(a.len(), b.len());
    for (s, t) in a.iter().zip(b.iter()) {
        assert_eq!(s.ty, t.ty);
    }
    assert_eq!(keyword_lookup("nvl"), Some(TokenType::FnCoalesce));
    assert_eq!(keyword_lookup("Coalesce"), Some(TokenType::FnCoalesce));
    assert_eq!(keyword_lookup("coalescer"), None);
}

#[test]
fn select_changes_nothing() {
    let mut ctx = Context::new();
    ctx.set_decimal("a", "4");
    let with = dsqlex::parse("SELECT a * 2").unwrap();
    let without = dsqlex::parse("a * 2").unwrap();
    assert_eq!(dsqlex::eval(&with, &ctx).unwrap(), dsqlex::eval(&without, &ctx).unwrap());
    assert_eq!(parse_error_of("SELECT"), "Unexpected end of input");
    assert_eq!(parse_error_of(""), "Empty expression");
}

#[test]
fn a_value_read_back_is_the_value_set() {
    let mut ctx = Context::new();
    ctx.set_decimal("x", "1");
    ctx.set_string("x", "replaced");
    ctx.set_null("y");
    assert_eq!(ctx.get_field("x"), Some(&Value::string("replaced")));
    assert_eq!(ctx.get_field("y"), Some(&Value::Null));
    assert_eq!(ctx.get_field("z"), None);
    assert!(!ctx.try_set_decimal("z", "not a number"));
    assert_eq!(ctx.get_field("z"), None);
    assert!(ctx.try_set_decimal("z", "2.5"));
    assert_eq!(ctx.get_field("z"), Some(&Value::Decimal(dec("2.5"))));
}

// ── errors, one input for each ──

#[test]
fn lexer_errors() {
    assert_eq!(tokenize("'open").unwrap_err().0, "Unterminated string literal");
    assert_eq!(tokenize("1 /* open").unwrap_err().0, "Unterminated block comment");
    assert_eq!(tokenize("a @ b").unwrap_err().0, "Unexpected character: '@'");
    assert_eq!(tokenize("a -- comment").unwrap().len(), 1);
    assert_eq!(tokenize("# all comment").unwrap().len(), 0);
    assert_eq!(tokenize("a /* x */ b").unwrap().len(), 2);
}

#[test]
fn parser_errors() {
    assert_eq!(
        parse_error_of("a AND b OR c"),
        "Ambiguous expression: mix of AND and OR requires parentheses"
    );
    assert_eq!(
        parse_error_of("a + b * c"),
        "Ambiguous expression: mix of +/- and */÷ requires parentheses"
    );
    assert_eq!(parse_error_of("a < b < c"), "Cannot chain comparison operators");
    assert_eq!(parse_error_of("a IS 1"), "Expected NULL, TRUE, or FALSE after IS [NOT]");
    assert_eq!(parse_error_of("a NOT 1"), "Expected IN or LIKE after NOT");
    assert_eq!(parse_error_of("CASE ELSE 1 END"), "CASE requires at least one WHEN clause");
    assert_eq!(parse_error_of("(a"), "Expected RParen, got end of input");
    assert_eq!(parse_error_of("a b"), "Unexpected token after expression: Identifier");
    assert_eq!(parse_error_of(")"), "Unexpected token: RParen");
    assert!(parse_error_of("1.2.3").starts_with("Invalid number '1.2.3': "));
}

#[test]
fn evaluation_errors() {
    let ctx = Context::new();
    assert_eq!(error_of("1 / 0", &ctx), "Division by zero");
    assert_eq!(error_of("1 / 0.00", &ctx), "Division by zero");
    assert_eq!(error_of("'abc' + 1", &ctx), "Cannot convert 'abc' to decimal");
    assert_eq!(error_of("TRUE + 1", &ctx), "Cannot convert boolean to decimal");
    assert_eq!(error_of("NULL + 1", &ctx), "Cannot convert NULL to decimal");
    assert_eq!(error_of("nothing", &ctx), "Unknown field: nothing");
    assert_eq!(error_of("ROUND(1)", &ctx), "ROUND requires exactly 2 arguments");
    assert_eq!(error_of("ROUND(1, 99999999999)", &ctx), "ROUND precision must be an integer");
    assert_eq!(error_of("UPPER(1, 2)", &ctx), "UPPER requires exactly 1 argument");
    assert_eq!(error_of("LOWER()", &ctx), "LOWER requires exactly 1 argument");
    assert_eq!(error_of("ABS()", &ctx), "ABS requires exactly 1 argument");
    assert_eq!(error_of("EVENT('a')", &ctx), "EVENT requires 2 or 3 arguments");
    assert_eq!(error_of("EVENT('a', 'b')", &ctx), "No event_resolver provided");
    assert_eq!(
        error_of("79228162514264337593543950335 * 2", &ctx),
        "Multiplication overflowed"
    );
    assert_eq!(
        error_of("79228162514264337593543950335 + 1", &ctx),
        "Addition overflowed"
    );
    assert_eq!(
        error_of("0 - 79228162514264337593543950335 - 1", &ctx),
        "Subtraction overflowed"
    );
}

#[test]
fn event_resolver_answers_events() {
    let mut ctx = Context::new();
    let mut src = Context::new();
    src.set_string("region", "EU");
    ctx.set_nested("order", src);
    let opts = EvalOptions {
        resolver: None::<FieldFn>,
        event_resolver: Some(|t: &str, s: &str, c: &Context, _v: &Vec<String>| {
            let region = match c.get_field("region") {
                Some(v) => v.to_display_string(),
                None => "none".to_string(),
            };
            Ok(Value::string(&format!("{}.{}@{}", t, s, region)))
        }),
        visited: vec!["loop.back".to_string()],
    };
    let run = |e: &str| dsqlex::eval_string_with_options(e, &ctx, &opts);
    assert_eq!(run("EVENT('sale', 'done')").unwrap(), Value::string("sale.done@none"));
    assert_eq!(run("EVENT('sale', 'done', order)").unwrap(), Value::string("sale.done@EU"));
    assert_eq!(
        run("EVENT('loop', 'back')").unwrap_err().0,
        "Circular reference detected: loop.back"
    );
    assert_eq!(
        run("EVENT('a', 'b', nowhere)").unwrap_err().0,
        "Nested context 'nowhere' not found"
    );
    assert_eq!(
        run("EVENT('a', 'b', 'x')").unwrap_err().0,
        "EVENT third argument must be an identifier"
    );
}

#[test]
fn resolver_errors_are_passed_on() {
    let ctx = Context::new();
    let opts = EvalOptions {
        resolver: Some(|name: &str, _v: &Vec<String>| Err(DsqlexError(format!("no {}", name)))),
        event_resolver: None::<EventFn>,
        visited: Vec::new(),
    };
    assert_eq!(dsqlex::eval_string_with_options("x + 1", &ctx, &opts).unwrap_err().0, "no x");
    assert_eq!(dsqlex::eval_string_with_options("(", &ctx, &opts).unwrap_err().0, "Unexpected end of input");
}

// ── the outside crates, through the library ──

#[test]
fn decimal_arithmetic_and_text() {
    let ctx = Context::new();
    assert_eq!(eval("1.5 + 2.25", &ctx).unwrap(), Value::Decimal(dec("3.75")));
    assert_eq!(eval("5 - 7.5", &ctx).unwrap(), Value::Decimal(dec("-2.5")));
    assert_eq!(eval("1.5 * 4", &ctx).unwrap(), Value::Decimal(dec("6")));
    assert_eq!(eval("7 / 2", &ctx).unwrap(), Value::Decimal(dec("3.5")));
    assert_eq!(eval("CONCAT(1.50, '|', TRUE, '|', NULL)", &ctx).unwrap(), Value::string("1.50|TRUE|NULL"));
    assert_eq!(Value::Decimal(dec("-0.10")).to_display_string(), "-0.10");
    assert!(Dec::parse_text("abc").is_err());
    assert!(Dec::parse("12x").is_none());
    assert!(dec("1.10").compare(&dec("1.1")) == 0);
    assert!(dec("-1").compare(&dec("0.5")) < 0);
    assert!(dec("2") > dec("1.99"));
}

#[test]
fn rounding_goes_away_from_zero() {
    let ctx = Context::new();
    assert_eq!(eval("ROUND(2.345, 2)", &ctx).unwrap().to_display_string(), "2.35");
    assert_eq!(eval("ROUND(2.5, 0)", &ctx).unwrap().to_display_string(), "3");
    assert_eq!(eval("ROUND(0 - 2.5, 0)", &ctx).unwrap().to_display_string(), "-3");
    assert_eq!(eval("ROUND(1.2345, 2.9)", &ctx).unwrap().to_display_string(), "1.23");
    assert_eq!(eval("ROUND(1.25, 5)", &ctx).unwrap().to_display_string(), "1.25");
    assert_eq!(eval("ROUND(NULL, 2)", &ctx).unwrap(), Value::Null);
    assert_eq!(eval("ROUND('1.005', 2)", &ctx).unwrap().to_display_string(), "1.01");
}

#[test]
fn case_conversion_and_absolute_value() {
    let ctx = Context::new();
    assert_eq!(eval("UPPER('straße')", &ctx).unwrap(), Value::string("STRASSE"));
    assert_eq!(eval("LOWER('ÀB')", &ctx).unwrap(), Value::string("àb"));
    assert_eq!(eval("UPPER(1.5)", &ctx).unwrap(), Value::string("1.5"));
    assert_eq!(eval("LOWER(NULL)", &ctx).unwrap(), Value::Null);
    assert_eq!(eval("ABS(0 - 3.25)", &ctx).unwrap(), Value::Decimal(dec("3.25")));
    assert_eq!(eval("ABS('-4')", &ctx).unwrap(), Value::Decimal(dec("4")));
    assert_eq!(eval("ABS(NULL)", &ctx).unwrap(), Value::Null);
}

#[test]
fn resolvers_only_fill_gaps() {
    let mut ctx = Context::new();
    ctx.set_decimal("a", "21");
    let opts = EvalOptions {
        resolver: Some(|_n: &str, _v: &Vec<String>| Ok(Value::Decimal(dec("0")))),
        event_resolver: Some(|_t: &str, _s: &str, _c: &Context, _v: &Vec<String>| Ok(Value::Null)),
        visited: vec!["a".to_string()],
    };
    let ast = dsqlex::parse("CASE WHEN a > 20 THEN a * 2 ELSE missing END").unwrap();
    let plain = dsqlex::eval(&ast, &ctx).unwrap();
    assert_eq!(plain, Value::Decimal(dec("42")));
    assert_eq!(dsqlex::eval_with_options(&ast, &ctx, &opts).unwrap(), plain);
}

#[test]
fn arithmetic_chains_group_to_the_left() {
    let ctx = Context::new();
    assert_eq!(eval("10 - 3 - 2", &ctx).unwrap(), Value::Decimal(dec("5")));
    assert_eq!(eval("100 / 10 / 2", &ctx).unwrap(), Value::Decimal(dec("5")));
    assert_eq!(eval("(10 - 3) * 2", &ctx).unwrap(), Value::Decimal(dec("14")));
}

#[test]
fn a_parsed_expression_can_be_copied() {
    let mut ctx = Context::new();
    ctx.set_string("s", "Abc");
    let ast = dsqlex::parse("CASE WHEN s LIKE 'a%' THEN CONCAT(UPPER(s), 1) ELSE NULL END").unwrap();
    let copy = ast.duplicate();
    drop(ast);
    assert_eq!(dsqlex::eval(&copy, &ctx).unwrap(), Value::string("ABC1"));
}

#[test]
fn in_is_membership() {
    let ctx = Context::new();
    assert_eq!(eval("NULL IN (NULL)", &ctx).unwrap(), Value::Bool(true));
    assert_eq!(eval("1 IN ('1.0')", &ctx).unwrap(), Value::Bool(true));
    assert_eq!(eval("1 NOT IN ('1.0')", &ctx).unwrap(), Value::Bool(false));
    assert_eq!(eval("'b' IN ('a', 'c')", &ctx).unwrap(), Value::Bool(false));
}

#[test]
fn select_only_at_the_top() {
    for text in ["SELECT (a + 1)", "(b)", "CASE WHEN x THEN (y) END", "UPPER((s))"] {
        match dsqlex::parse(text).unwrap() {
            AstNode::Select(inner) => assert!(!matches!(*inner, AstNode::Select(_))),
            _ => panic!("expected Select at the top"),
        }
    }
}

#[test]
fn comparison_operators_read_the_order() {
    let ctx = Context::new();
    assert_eq!(eval("NULL = NULL", &ctx).unwrap(), Value::Bool(true));
    assert_eq!(eval("NULL < 1", &ctx).unwrap(), Value::Bool(false));
    assert_eq!(eval("NULL >= 1", &ctx).unwrap(), Value::Bool(false));
    assert_eq!(eval("'abc' = 'abc'", &ctx).unwrap(), Value::Bool(true));
    assert_eq!(eval("2.0 <= 2", &ctx).unwrap(), Value::Bool(true));
    assert_eq!(eval("'a' LIKE '%'", &ctx).unwrap(), Value::Bool(true));
    assert_eq!(eval("CONCAT(0.000, '|', 12.5)", &ctx).unwrap(), Value::string("0.000|12.5"));
}
