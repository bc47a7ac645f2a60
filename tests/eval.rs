use ducky::ast::{BindingDef, BindingUsage, Expr, FuncCall, FuncDef, Number, Op, Stmt};
use ducky::env::Env;
use ducky::eval::EvalError;
use ducky::parse;
use ducky::val::Val;

fn num(n: i32) -> Box<Expr> {
    Box::new(Expr::Number(Number(n)))
}

fn run(input: &str, env: &mut Env) -> Result<Val, EvalError> {
    parse(input).expect("parses").eval(env)
}

#[test]
fn eval_existing_binding_usage() {
    let mut env = Env::default();
    env.store_bindings("foo".to_string(), Val::Number(10));

    assert_eq!(BindingUsage { name: "foo".to_string() }.eval(&env), Ok(Val::Number(10)))
}

#[test]
fn eval_non_existent_binding_usage() {
    let env = Env::default();

    assert_eq!(BindingUsage { name: "dont_exist".to_string() }.eval(&env).is_err(), true)
}

#[test]
fn eval_func_call() {
    let mut env = Env::default();

    env.store_func(
        "id".to_string(),
        vec!["x".to_string()],
        Stmt::Expr(Expr::BindingUsage(BindingUsage { name: "x".to_string() })),
    );

    assert_eq!(
        FuncCall { callee: "id".to_string(), params: vec![Expr::Number(Number(10))] }.eval(&mut env),
        Ok(Val::Number(10)),
    );
}

#[test]
fn eval_binding_def() {
    assert_eq!(
        Stmt::BindingDef(BindingDef { name: "ten".to_string(), val: Expr::Number(Number(10)) })
            .eval(&mut Env::default()),
        Ok(Val::Unit),
    )
}

#[test]
fn eval_expr() {
    assert_eq!(Stmt::Expr(Expr::Number(Number(5))).eval(&mut Env::default()), Ok(Val::Number(5)),);
}

#[test]
fn eval_func_def() {
    assert_eq!(
        Stmt::FuncDef(FuncDef {
            name: "always_return_one".to_string(),
            params: Vec::new(),
            body: Box::new(Stmt::Expr(Expr::Number(Number(1)))),
        })
        .eval(&mut Env::default()),
        Ok(Val::Unit),
    );
}

#[test]
fn eval_add() {
    assert_eq!(
        Expr::Operation { lhs: num(10), rhs: num(3), op: Op::Add }.eval(&mut Env::default()),
        Ok(Val::Number(13))
    )
}

#[test]
fn eval_sub() {
    assert_eq!(
        Expr::Operation { lhs: num(1), rhs: num(5), op: Op::Sub }.eval(&mut Env::default()),
        Ok(Val::Number(-4)),
    );
}

#[test]
fn eval_mul() {
    assert_eq!(
        Expr::Operation { lhs: num(5), rhs: num(6), op: Op::Mul }.eval(&mut Env::default()),
        Ok(Val::Number(30)),
    );
}

#[test]
fn eval_div() {
    assert_eq!(
        Expr::Operation { lhs: num(200), rhs: num(20), op: Op::Div }.eval(&mut Env::default()),
        Ok(Val::Number(10)),
    );
}

#[test]
fn division_rounds_toward_zero() {
    assert_eq!(Op::Div.apply(Val::Number(-7), Val::Number(2)), Ok(Val::Number(-3)));
    assert_eq!(Op::Div.apply(Val::Number(7), Val::Number(-2)), Ok(Val::Number(-3)));
}

#[test]
fn division_by_zero_is_an_error() {
    let mut env = Env::default();
    assert_eq!(run("1 / 0", &mut env), Err(EvalError::DivisionByZero));
}

#[test]
fn overflow_is_an_error() {
    let mut env = Env::default();
    assert_eq!(run("2147483647 + 1", &mut env), Err(EvalError::Overflow));
    assert_eq!(Op::Mul.apply(Val::Number(65536), Val::Number(65536)), Err(EvalError::Overflow));
    assert_eq!(Op::Div.apply(Val::Number(i32::MIN), Val::Number(-1)), Err(EvalError::Overflow));
}

#[test]
fn unit_operand_is_an_error() {
    let mut env = Env::default();
    assert_eq!(run("{} + 1", &mut env), Err(EvalError::NotANumber));
}

#[test]
fn mixed_precedence_evaluates_to_three() {
    let mut env = Env::default();
    assert_eq!(run("1+2*3-4", &mut env), Ok(Val::Number(3)));
}

#[test]
fn rebinding_keeps_the_last_value() {
    let mut env = Env::default();
    assert_eq!(run("let a = 1", &mut env), Ok(Val::Unit));
    assert_eq!(run("let a = 2", &mut env), Ok(Val::Unit));
    assert_eq!(run("a", &mut env), Ok(Val::Number(2)));
}

#[test]
fn unbound_name_is_an_error() {
    let mut env = Env::default();
    assert_eq!(run("nothing", &mut env), Err(EvalError::UnresolvedBinding("nothing".to_string())));
}

#[test]
fn defined_function_adds() {
    let mut env = Env::default();
    assert_eq!(run("fn add x y => x + y", &mut env), Ok(Val::Unit));
    let (_, call) = FuncCall::parse("add 3 4").unwrap();
    assert_eq!(call.eval(&mut env), Ok(Val::Number(7)));
    assert_eq!(env.get_binding_value_inner("x"), None);
}

#[test]
fn undefined_function_is_an_error() {
    let mut env = Env::default();
    let (_, call) = FuncCall::parse("missing 1").unwrap();
    assert_eq!(call.eval(&mut env), Err(EvalError::UnresolvedFunction("missing".to_string())));
}

#[test]
fn extra_arguments_are_dropped_and_missing_ones_unbound() {
    let mut env = Env::default();
    env.store_func("first".to_string(), vec!["x".to_string()], Stmt::Expr(Expr::BindingUsage(BindingUsage { name: "x".to_string() })));
    env.store_func("second".to_string(), vec!["x".to_string(), "y".to_string()], Stmt::Expr(Expr::BindingUsage(BindingUsage { name: "y".to_string() })));
    let (_, call) = FuncCall::parse("first 1 2").unwrap();
    assert_eq!(call.eval(&mut env), Ok(Val::Number(1)));
    let (_, call) = FuncCall::parse("second 1").unwrap();
    assert_eq!(call.eval(&mut env), Err(EvalError::UnresolvedBinding("y".to_string())));
}

#[test]
fn endless_recursion_is_cut_off() {
    let mut env = Env::default();
    let body = Stmt::Expr(Expr::FuncCall(FuncCall {
        callee: "f".to_string(),
        params: vec![Expr::BindingUsage(BindingUsage { name: "x".to_string() })],
    }));
    env.store_func("f".to_string(), vec!["x".to_string()], body);
    let (_, call) = FuncCall::parse("f 1").unwrap();
    assert_eq!(call.eval(&mut env), Err(EvalError::CallTooDeep));
    assert_eq!(run("1", &mut env), Ok(Val::Number(1)));
}

#[test]
fn binding_definition_end_to_end() {
    let mut env = Env::default();
    assert_eq!(run("let a = 1 + 2", &mut env), Ok(Val::Unit));
    assert_eq!(env.get_binding_value_inner("a"), Some(Val::Number(3)));
}

#[test]
fn block_end_to_end() {
    let mut env = Env::default();
    assert_eq!(run("{ let a = 10 let b = a b }", &mut env), Ok(Val::Number(10)));
    assert_eq!(run("{}", &mut env), Ok(Val::Unit));
    assert_eq!(run("{ let c = 1 }", &mut env), Ok(Val::Unit));
}

#[test]
fn block_bindings_stay_in_the_enclosing_scope() {
    let mut env = Env::default();
    assert_eq!(run("{ let inner = 5 }", &mut env), Ok(Val::Unit));
    assert_eq!(run("inner", &mut env), Ok(Val::Number(5)));
}

#[test]
fn trailing_input_is_a_parse_error() {
    assert!(parse("1 2").is_err());
    assert!(parse("let = 1").is_err());
    assert!(parse("").is_err());
}

#[test]
fn failed_statement_keeps_earlier_bindings() {
    let mut env = Env::default();
    assert_eq!(run("let a = 4", &mut env), Ok(Val::Unit));
    assert!(run("let b = a / 0", &mut env).is_err());
    assert_eq!(run("a", &mut env), Ok(Val::Number(4)));
    assert_eq!(env.get_binding_value_inner("b"), None);
}

#[test]
fn child_scopes_see_and_shadow_their_parents() {
    let mut env = Env::default();
    env.store_bindings("a".to_string(), Val::Number(1));
    env.create_child();
    assert_eq!(env.get_binding_value_inner("a"), Some(Val::Number(1)));
    env.store_bindings("a".to_string(), Val::Number(2));
    assert_eq!(env.get_binding_value_inner("a"), Some(Val::Number(2)));
    env.drop_child();
    assert_eq!(env.get_binding_value_inner("a"), Some(Val::Number(1)));
}

#[test]
fn values_render_as_decimal_or_unit() {
    assert_eq!(Val::Number(0).render(), "0");
    assert_eq!(Val::Number(-123).render(), "-123");
    assert_eq!(Val::Number(2147483647).render(), "2147483647");
    assert_eq!(Val::Number(i32::MIN).render(), "-2147483648");
    assert_eq!(Val::Unit.render(), "Unit");
}

#[test]
fn missing_binding_value_is_an_error() {
    let mut env = Env::default();
    assert_eq!(env.get_binding_value("a"), Err(EvalError::UnresolvedBinding("a".to_string())));
    env.store_bindings("a".to_string(), Val::Unit);
    assert_eq!(env.get_binding_value("a"), Ok(Val::Unit));
}

#[test]
fn trailing_blanks_are_accepted() {
    let mut env = Env::default();
    assert_eq!(run("1 ", &mut env), Ok(Val::Number(1)));
    assert_eq!(run("let a = 2 \n ", &mut env), Ok(Val::Unit));
    assert_eq!(run("a", &mut env), Ok(Val::Number(2)));
    assert!(parse("1 foo").is_err());
}
