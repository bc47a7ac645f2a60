use ducky::ast::{BindingDef, BindingUsage, Block, Expr, FuncCall, FuncDef, Number, Op, Stmt};

fn num(n: i32) -> Box<Expr> {
    Box::new(Expr::Number(Number(n)))
}

fn usage(name: &str) -> Expr {
    Expr::BindingUsage(BindingUsage { name: name.to_string() })
}

#[test]
fn binding_def_parse_binding_def() {
    assert_eq!(
        BindingDef::parse("let a = 1 + 2"),
        Ok((
            "",
            BindingDef {
                name: "a".to_string(),
                val: Expr::Operation { lhs: num(1), rhs: num(2), op: Op::Add }
            }
        ))
    )
}

#[test]
fn binding_usage_parse_binding_usage() {
    assert_eq!(
        BindingUsage::parse("abc"),
        Ok(("", BindingUsage { name: "abc".to_string() }))
    )
}

#[test]
fn parse_func_call_with_one_params() {
    assert_eq!(
        FuncCall::parse("factorial 10"),
        Ok((
            "",
            FuncCall {
                callee: "factorial".to_string(),
                params: vec![Expr::Number(Number(10))],
            }
        ))
    )
}

fn add_def() -> FuncDef {
    FuncDef {
        name: "add".to_string(),
        params: vec!["x".to_string(), "y".to_string()],
        body: Box::new(Stmt::Expr(Expr::Operation {
            lhs: Box::new(usage("x")),
            rhs: Box::new(usage("y")),
            op: Op::Add,
        })),
    }
}

#[test]
fn func_def_parse_func_def_with_multiple_params() {
    assert_eq!(FuncDef::parse("fn add x y => x + y"), Ok(("", add_def())));
}

#[test]
fn stmt_parse_func_def_with_multiple_params() {
    assert_eq!(FuncDef::parse("fn add x y => x + y"), Ok(("", add_def())));
}

#[test]
fn stmt_parse_binding_def() {
    assert_eq!(
        Stmt::parse("let a = 10"),
        Ok((
            "",
            Stmt::BindingDef(BindingDef { name: "a".to_string(), val: Expr::Number(Number(10)) })
        ))
    );
}

#[test]
fn parse_expr() {
    assert_eq!(
        Stmt::parse("1+1"),
        Ok(("", Stmt::Expr(Expr::Operation { lhs: num(1), rhs: num(1), op: Op::Add })))
    );
}

#[test]
fn parse_func_def() {
    assert_eq!(
        Stmt::parse("fn identity x => x"),
        Ok((
            "",
            Stmt::FuncDef(FuncDef {
                name: "identity".to_string(),
                params: vec!["x".to_string()],
                body: Box::new(Stmt::Expr(usage("x"))),
            })
        ))
    )
}

#[test]
fn pare_func_def_without_params_and_empty_body() {
    assert_eq!(
        FuncDef::parse("fn nothing => {}"),
        Ok((
            "",
            FuncDef {
                name: "nothing".to_string(),
                params: Vec::new(),
                body: Box::new(Stmt::Expr(Expr::Block(Block { stmts: Vec::new() }))),
            }
        ))
    )
}

#[test]
fn parse_func_def_with_one_param_and_empty_body() {
    assert_eq!(
        FuncDef::parse("fn greet name => {}"),
        Ok((
            "",
            FuncDef {
                name: "greet".to_string(),
                params: vec!["name".to_string()],
                body: Box::new(Stmt::Expr(Expr::Block(Block { stmts: Vec::new() }))),
            },
        )),
    );
}

#[test]
fn expr_parse_number() {
    assert_eq!(Number::parse("123"), Ok(("", Number(123))));
}

#[test]
fn expr_parse_add() {
    assert_eq!(Op::parse("+"), Ok(("", Op::Add)));
}

#[test]
fn expr_parse_sub() {
    assert_eq!(Op::parse("-"), Ok(("", Op::Sub)));
}

#[test]
fn expr_parse_mul() {
    assert_eq!(Op::parse("*"), Ok(("", Op::Mul)));
}

#[test]
fn expr_parse_div() {
    assert_eq!(Op::parse("/"), Ok(("", Op::Div)));
}

#[test]
fn parse_nubmer_as_expr() {
    assert_eq!(Expr::parse("456"), Ok(("", Expr::Number(Number(456)))));
}

#[test]
fn expr_parse_add_expr() {
    assert_eq!(
        Expr::parse("1+2"),
        Ok(("", Expr::Operation { lhs: num(1), rhs: num(2), op: Op::Add }))
    );
}

#[test]
fn expr_parse_binding_usage() {
    assert_eq!(Expr::parse("bar"), Ok(("", usage("bar"))))
}

#[test]
fn parse_block() {
    assert_eq!(
        Expr::parse("{ 200 }"),
        Ok(("", Expr::Block(Block { stmts: vec![Stmt::Expr(Expr::Number(Number(200)))] }))),
    );
}

#[test]
fn parse_empty_block() {
    assert_eq!(Block::parse("{}"), Ok(("", Block { stmts: Vec::new() })));
}

#[test]
fn parse_empty_block_with_spaces() {
    assert_eq!(Block::parse("{   }"), Ok(("", Block { stmts: Vec::new() })));
}

#[test]
fn parse_block_with_one_stmt() {
    assert_eq!(
        Block::parse("{ 5 }"),
        Ok(("", Block { stmts: vec![Stmt::Expr(Expr::Number(Number(5)))] })),
    );
}

#[test]
fn parse_block_with_multiple_stmts() {
    assert_eq!(
        Block::parse(
            "{ 
                    let a = 10
                    let b = a
                    b
                }"
        ),
        Ok((
            "",
            Block {
                stmts: vec![
                    Stmt::BindingDef(BindingDef { name: "a".to_string(), val: Expr::Number(Number(10)) }),
                    Stmt::BindingDef(BindingDef { name: "b".to_string(), val: usage("a") }),
                    Stmt::Expr(usage("b")),
                ]
            }
        ))
    )
}

#[test]
fn lib_parse_number() {
    assert_eq!(Number::parse("123"), Ok(("", Number(123))));
}

#[test]
fn lib_parse_add() {
    assert_eq!(Op::parse("+"), Ok(("", Op::Add)));
}

#[test]
fn lib_parse_sub() {
    assert_eq!(Op::parse("-"), Ok(("", Op::Sub)));
}

#[test]
fn lib_parse_mul() {
    assert_eq!(Op::parse("*"), Ok(("", Op::Mul)));
}

#[test]
fn lib_parse_div() {
    assert_eq!(Op::parse("/"), Ok(("", Op::Div)));
}

#[test]
fn lib_parse_add_expr() {
    assert_eq!(
        Expr::parse("1+2"),
        Ok(("", Expr::Operation { lhs: num(1), rhs: num(2), op: Op::Add }))
    );
}

#[test]
fn multiplication_binds_tighter_in_statements() {
    assert_eq!(
        Expr::parse("1+2*3-4"),
        Ok((
            "",
            Expr::Operation {
                lhs: Box::new(Expr::Operation {
                    lhs: num(1),
                    rhs: Box::new(Expr::Operation { lhs: num(2), rhs: num(3), op: Op::Mul }),
                    op: Op::Add,
                }),
                rhs: num(4),
                op: Op::Sub,
            }
        ))
    );
}

#[test]
fn same_level_operators_group_left() {
    assert_eq!(
        Expr::parse("8 - 2 - 1"),
        Ok((
            "",
            Expr::Operation {
                lhs: Box::new(Expr::Operation { lhs: num(8), rhs: num(2), op: Op::Sub }),
                rhs: num(1),
                op: Op::Sub,
            }
        ))
    );
}

#[test]
fn operator_without_right_operand_is_left_unread() {
    assert_eq!(Expr::parse("1 +"), Ok((" +", Expr::Number(Number(1)))));
}

#[test]
fn number_too_large_is_rejected() {
    assert!(Number::parse("2147483648").is_err());
    assert_eq!(Number::parse("2147483647x"), Ok(("x", Number(2147483647))));
}

#[test]
fn op_rejects_other_characters() {
    assert!(Op::parse("x").is_err());
    assert!(Op::parse("").is_err());
    assert_eq!(Op::Add.binding_power(), (1, 2));
    assert_eq!(Op::Div.binding_power(), (3, 4));
}

#[test]
fn func_call_needs_an_argument() {
    assert!(FuncCall::parse("add").is_err());
    assert_eq!(
        FuncCall::parse("add 3 4"),
        Ok((
            "",
            FuncCall { callee: "add".to_string(), params: vec![Expr::Number(Number(3)), Expr::Number(Number(4))] }
        ))
    );
}

#[test]
fn unterminated_block_fails() {
    assert!(Block::parse("{ 1").is_err());
    assert!(Expr::parse("{ 1").is_err());
}

#[test]
fn duplicate_copies_the_whole_tree() {
    let (_, s) = Stmt::parse("fn f a => { let b = a b + 1 }").unwrap();
    assert_eq!(s.duplicate(), s);
}

#[test]
fn keyword_glued_to_a_name_is_a_name() {
    assert!(BindingDef::parse("letx = 1").is_err());
    assert!(FuncDef::parse("fnord x => 1").is_err());
    assert_eq!(Stmt::parse("letx = 1"), Ok((" = 1", Stmt::Expr(usage("letx")))));
    assert_eq!(
        BindingDef::parse("let{} = 1").is_err(),
        true
    );
    assert_eq!(
        Stmt::parse("let x=1"),
        Ok(("", Stmt::BindingDef(BindingDef { name: "x".to_string(), val: Expr::Number(Number(1)) })))
    );
}
