use vstd::prelude::*;
use vstd::string::StrSliceExecFns;
use vstd::string::StringExecFns;
use crate::grammar::{
    digits_value, left_power, p_binding_def, p_block, p_expr, p_expr_bp, p_chain,
    p_func_call, p_func_def, p_ident, p_number, p_op, p_operand, p_params, p_stmt, p_stmts,
    p_args, right_power,
};
use crate::utils::{
    at_word_end, digits_len, extract_digits, extract_ident, extract_op, extract_spaces, extract_whitespaces,
    is_digit, lemma_span_bound, lemma_span_le, skip, tag,
};

verus! {

broadcast use lemma_span_le;

/// A number literal.
#[derive(Debug, Clone, Copy, PartialEq, Eq, Structural)]
pub struct Number(pub i32);

/// A binary operator.
#[derive(Debug, Clone, Copy, PartialEq, Eq, Structural)]
pub enum Op {
    Add,
    Sub,
    Mul,
    Div,
}

/// A use of a binding, by name.
#[derive(Debug, PartialEq)]
pub struct BindingUsage {
    pub name: String,
}

/// Statements between braces; the value of the last one is the block's.
#[derive(Debug, PartialEq)]
pub struct Block {
    pub stmts: Vec<Stmt>,
}

/// A call of a function by name, with one expression per argument.
#[derive(Debug, PartialEq)]
pub struct FuncCall {
    pub callee: String,
    pub params: Vec<Expr>,
}

/// An expression.
#[derive(Debug, PartialEq)]
pub enum Expr {
    Number(Number),
    Operation { lhs: Box<Expr>, rhs: Box<Expr>, op: Op },
    BindingUsage(BindingUsage),
    Block(Block),
    FuncCall(FuncCall),
}

/// `let name = val`.
#[derive(Debug, PartialEq)]
pub struct BindingDef {
    pub name: String,
    pub val: Expr,
}

/// `fn name params.. => body`.
#[derive(Debug, PartialEq)]
pub struct FuncDef {
    pub name: String,
    pub params: Vec<String>,
    pub body: Box<Stmt>,
}

/// A statement: a definition or an expression.
#[derive(Debug, PartialEq)]
pub enum Stmt {
    BindingDef(BindingDef),
    Expr(Expr),
    FuncDef(FuncDef),
}

/// The syntax of an expression, as a mathematical value.
pub enum ExprV {
    Number(i32),
    Operation { lhs: Box<ExprV>, rhs: Box<ExprV>, op: Op },
    BindingUsage(Seq<char>),
    Block(Seq<StmtV>),
    FuncCall(Seq<char>, Seq<ExprV>),
}

/// The syntax of a statement, as a mathematical value.
pub enum StmtV {
    BindingDef(Seq<char>, ExprV),
    Expr(ExprV),
    FuncDef(Seq<char>, Seq<Seq<char>>, Box<StmtV>),
}

pub open spec fn names_view(v: Seq<String>) -> Seq<Seq<char>> {
    Seq::new(v.len(), |i: int| v[i]@)
}

pub open spec fn exprs_view(s: Seq<Expr>) -> Seq<ExprV>
    decreases s, 0int,
{
    if s.len() == 0 {
        Seq::empty()
    } else {
        exprs_view(s.drop_last()).push(expr_view(s.last()))
    }
}

pub open spec fn stmts_view(s: Seq<Stmt>) -> Seq<StmtV>
    decreases s, 0int,
{
    if s.len() == 0 {
        Seq::empty()
    } else {
        stmts_view(s.drop_last()).push(stmt_view(s.last()))
    }
}

pub open spec fn expr_view(e: Expr) -> ExprV
    decreases e, 0int,
{
    match e {
        Expr::Number(n) => ExprV::Number(n.0),
        Expr::Operation { lhs, rhs, op } => ExprV::Operation {
            lhs: Box::new(expr_view(*lhs)),
            rhs: Box::new(expr_view(*rhs)),
            op,
        },
        Expr::BindingUsage(b) => ExprV::BindingUsage(b.name@),
        Expr::Block(b) => ExprV::Block(stmts_view(b.stmts@)),
        Expr::FuncCall(c) => ExprV::FuncCall(c.callee@, exprs_view(c.params@)),
    }
}

pub open spec fn stmt_view(s: Stmt) -> StmtV
    decreases s, 0int,
{
    match s {
        Stmt::BindingDef(d) => StmtV::BindingDef(d.name@, expr_view(d.val)),
        Stmt::Expr(e) => StmtV::Expr(expr_view(e)),
        Stmt::FuncDef(f) => StmtV::FuncDef(f.name@, names_view(f.params@), Box::new(stmt_view(*f.body))),
    }
}

proof fn lemma_digits_value_nonneg(d: Seq<char>)
    requires
        forall|i: int| 0 <= i < d.len() ==> is_digit(#[trigger] d[i]),
    ensures
        digits_value(d) >= 0,
    decreases d.len(),
{
    if d.len() > 0 {
        lemma_digits_value_nonneg(d.drop_last());
    }
}

/// A longer string of digits is worth at least as much as its prefix.
proof fn lemma_digits_value_prefix(d: Seq<char>, j: int)
    requires
        0 <= j <= d.len(),
        forall|i: int| 0 <= i < d.len() ==> is_digit(#[trigger] d[i]),
    ensures
        digits_value(d.subrange(0, j)) <= digits_value(d),
    decreases d.len(),
{
    if j < d.len() {
        let e = d.drop_last();
        assert(d.subrange(0, j) =~= e.subrange(0, j));
        lemma_digits_value_prefix(e, j);
        lemma_digits_value_nonneg(e);
    } else {
        assert(d.subrange(0, j) =~= d);
    }
}

impl Number {
    /// Reads a decimal literal; fails where `s` starts with no digit or the
    /// literal does not fit in an `i32`.
    pub fn parse(s: &str) -> (r: Result<(&str, Number), String>)
        ensures
            match r {
                Ok((rest, n)) => p_number(s@) == Some((rest@, n.0)),
                Err(_) => p_number(s@) is None,
            },
    {
        let (rest, digits) = extract_digits(s)?;
        let ghost k = digits_len(s@) as int;
        proof {
            lemma_span_bound(s@, |c: char| is_digit(c));
            assert forall|i: int| 0 <= i < digits@.len() implies is_digit(#[trigger] digits@[i]) by {
                assert(digits@[i] == s@[i]);
            }
        }
        let n = digits.unicode_len();
        let mut v: u64 = 0;
        let mut i: usize = 0;
        while i < n
            invariant
                n == digits@.len(),
                i <= n,
                digits_len(s@) > 0,
                digits@ == s@.subrange(0, digits_len(s@) as int),
                rest@ == skip(s@, digits_len(s@) as int),
                forall|j: int| 0 <= j < n ==> is_digit(#[trigger] digits@[j]),
                v == digits_value(digits@.subrange(0, i as int)),
                v <= i32::MAX,
            decreases n - i,
        {
            let c = digits.get_char(i);
            let d = (c as u32 - '0' as u32) as u64;
            assert(digits@.subrange(0, i + 1).drop_last() =~= digits@.subrange(0, i as int));
            assert(digits@.subrange(0, i + 1).last() == c);
            v = v * 10 + d;
            assert(v == digits_value(digits@.subrange(0, i + 1)));
            if v > i32::MAX as u64 {
                proof {
                    lemma_digits_value_prefix(digits@, i + 1);
                }
                return Err(String::from_str("number is too large"));
            }
            i = i + 1;
        }
        assert(digits@.subrange(0, n as int) =~= digits@);
        Ok((rest, Number(v as i32)))
    }
}

impl Op {
    /// Reads one of `+ - * /`.
    pub fn parse(s: &str) -> (r: Result<(&str, Op), String>)
        ensures
            match r {
                Ok((rest, op)) => p_op(s@) == Some((rest@, op)),
                Err(_) => p_op(s@) is None,
            },
    {
        if s.unicode_len() > 0 {
            let c = s.get_char(0);
            if c == '+' || c == '-' || c == '*' || c == '/' {
                let (rest, _) = extract_op(s);
                let op = if c == '+' {
                    Op::Add
                } else if c == '-' {
                    Op::Sub
                } else if c == '*' {
                    Op::Mul
                } else {
                    Op::Div
                };
                return Ok((rest, op));
            }
        }
        Err(String::from_str("expected operator"))
    }

    /// The left and right binding powers of the operator.
    pub fn binding_power(&self) -> (r: (u8, u8))
        ensures
            r.0 == left_power(*self),
            r.1 == right_power(*self),
    {
        match self {
            Op::Add | Op::Sub => (1, 2),
            Op::Mul | Op::Div => (3, 4),
        }
    }
}

impl BindingUsage {
    /// Reads a name: a letter, then letters and digits.
    pub fn parse(s: &str) -> (r: Result<(&str, BindingUsage), String>)
        ensures
            match r {
                Ok((rest, b)) => p_ident(s@) == Some((rest@, b.name@)),
                Err(_) => p_ident(s@) is None,
            },
    {
        let (rest, name) = extract_ident(s)?;
        Ok((rest, BindingUsage { name: String::from_str(name) }))
    }
}

proof fn lemma_keywords()
    ensures
        "let"@ == seq!['l', 'e', 't'],
        "fn"@ == seq!['f', 'n'],
        "="@ == seq!['='],
        "=>"@ == seq!['=', '>'],
        "{"@ == seq!['{'],
        "}"@ == seq!['}'],
{
    reveal_strlit("let");
    reveal_strlit("fn");
    reveal_strlit("=");
    reveal_strlit("=>");
    reveal_strlit("{");
    reveal_strlit("}");
    assert("let"@ =~= seq!['l', 'e', 't']);
    assert("fn"@ =~= seq!['f', 'n']);
    assert("="@ =~= seq!['=']);
    assert("=>"@ =~= seq!['=', '>']);
    assert("{"@ =~= seq!['{']);
    assert("}"@ =~= seq!['}']);
}

impl Stmt {
    /// Reads a binding definition, else a function definition, else an
    /// expression; on a failed alternative nothing is read.
    pub fn parse(s: &str) -> (r: Result<(&str, Stmt), String>)
        ensures
            match r {
                Ok((rest, st)) => rest@.len() < s@.len() && p_stmt(s@) == Some((rest@, stmt_view(st))),
                Err(_) => p_stmt(s@) is None,
            },
        decreases s@.len(), 6int,
    {
        match BindingDef::parse(s) {
            Ok((rest, d)) => {
                return Ok((rest, Stmt::BindingDef(d)));
            },
            Err(_) => {},
        }
        match FuncDef::parse(s) {
            Ok((rest, f)) => {
                return Ok((rest, Stmt::FuncDef(f)));
            },
            Err(_) => {},
        }
        let (rest, e) = Expr::parse(s)?;
        Ok((rest, Stmt::Expr(e)))
    }
}

impl BindingDef {
    /// Reads `let name = expr`.
    pub fn parse(s: &str) -> (r: Result<(&str, BindingDef), String>)
        ensures
            match r {
                Ok((rest, d)) => rest@.len() < s@.len() && p_binding_def(s@) == Some(
                    (rest@, StmtV::BindingDef(d.name@, expr_view(d.val))),
                ),
                Err(_) => p_binding_def(s@) is None,
            },
        decreases s@.len(), 5int,
    {
        proof {
            lemma_keywords();
        }
        let s1 = tag("let", s)?;
        if !at_word_end(s1) {
            return Err(String::from_str("expected let"));
        }
        let (s1, _) = extract_whitespaces(s1);
        let (s2, name) = extract_ident(s1)?;
        let (s3, _) = extract_whitespaces(s2);
        let s4 = tag("=", s3)?;
        let (s5, _) = extract_whitespaces(s4);
        let (rest, val) = Expr::parse(s5)?;
        Ok((rest, BindingDef { name: String::from_str(name), val }))
    }
}

impl FuncDef {
    /// Reads `fn name param.. => stmt`.
    pub fn parse(s: &str) -> (r: Result<(&str, FuncDef), String>)
        ensures
            match r {
                Ok((rest, f)) => rest@.len() < s@.len() && p_func_def(s@) == Some(
                    (rest@, StmtV::FuncDef(f.name@, names_view(f.params@), Box::new(stmt_view(*f.body)))),
                ),
                Err(_) => p_func_def(s@) is None,
            },
        decreases s@.len(), 5int,
    {
        proof {
            lemma_keywords();
        }
        let s1 = tag("fn", s)?;
        if !at_word_end(s1) {
            return Err(String::from_str("expected fn"));
        }
        let (s1, _) = extract_whitespaces(s1);
        let (s2, name) = extract_ident(s1)?;
        let (mut cur, _) = extract_whitespaces(s2);
        let ghost start = cur@;
        let mut params: Vec<String> = Vec::new();
        loop
            invariant
                cur@.len() <= start.len(),
                p_params(start) == (p_params(cur@).0, names_view(params@) + p_params(cur@).1),
            ensures
                cur@.len() <= start.len(),
                p_params(start) == (cur@, names_view(params@)),
            decreases cur@.len(),
        {
            match extract_ident(cur) {
                Ok((r, param)) => {
                    let ghost before = params@;
                    params.push(String::from_str(param));
                    let (r1, _) = extract_whitespaces(r);
                    proof {
                        assert(names_view(params@) =~= names_view(before) + seq![param@]);
                    }
                    cur = r1;
                },
                Err(_) => {
                    assert(names_view(params@) + Seq::empty() =~= names_view(params@));
                    break;
                },
            }
        }
        let s3 = tag("=>", cur)?;
        let (s4, _) = extract_whitespaces(s3);
        let (rest, body) = Stmt::parse(s4)?;
        Ok((rest, FuncDef { name: String::from_str(name), params, body: Box::new(body) }))
    }
}

impl Expr {
    /// The number alternative of an operand.
    pub fn new_number(s: &str) -> (r: Result<(&str, Expr), String>)
        ensures
            match r {
                Ok((rest, e)) => match p_number(s@) {
                    Some((r1, n)) => r1 == rest@ && expr_view(e) == ExprV::Number(n),
                    None => false,
                },
                Err(_) => p_number(s@) is None,
            },
    {
        let (rest, n) = Number::parse(s)?;
        Ok((rest, Expr::Number(n)))
    }

    fn parse_operand(s: &str) -> (r: Result<(&str, Expr), String>)
        ensures
            match r {
                Ok((rest, e)) => rest@.len() < s@.len() && p_operand(s@) == Some((rest@, expr_view(e))),
                Err(_) => p_operand(s@) is None,
            },
        decreases s@.len(), 2int,
    {
        match Expr::new_number(s) {
            Ok((rest, e)) => {
                return Ok((rest, e));
            },
            Err(_) => {},
        }
        match BindingUsage::parse(s) {
            Ok((rest, b)) => {
                return Ok((rest, Expr::BindingUsage(b)));
            },
            Err(_) => {},
        }
        let (rest, b) = Block::parse(s)?;
        Ok((rest, Expr::Block(b)))
    }

    /// An operand followed by the operators that bind at least as strongly as
    /// `min`, each with its right operand.
    fn parse_binding_power(s: &str, min: u8) -> (r: Result<(&str, Expr), String>)
        ensures
            match r {
                Ok((rest, e)) => rest@.len() < s@.len() && p_expr_bp(s@, min as int) == Some(
                    (rest@, expr_view(e)),
                ),
                Err(_) => p_expr_bp(s@, min as int) is None,
            },
        decreases s@.len(), 3int,
    {
        let (mut rest, mut lhs) = Expr::parse_operand(s)?;
        loop
            invariant
                rest@.len() < s@.len(),
                p_expr_bp(s@, min as int) == Some(p_chain(expr_view(lhs), rest@, min as int)),
            ensures
                rest@.len() < s@.len(),
                p_expr_bp(s@, min as int) == Some((rest@, expr_view(lhs))),
            decreases rest@.len(),
        {
            let (s1, _) = extract_whitespaces(rest);
            let (s2, op) = match Op::parse(s1) {
                Ok(x) => x,
                Err(_) => {
                    break;
                },
            };
            let (left, right) = op.binding_power();
            if left < min {
                break;
            }
            let (s3, _) = extract_whitespaces(s2);
            match Expr::parse_binding_power(s3, right) {
                Ok((s4, rhs)) => {
                    lhs = Expr::Operation { lhs: Box::new(lhs), rhs: Box::new(rhs), op };
                    rest = s4;
                },
                Err(_) => {
                    break;
                },
            }
        }
        Ok((rest, lhs))
    }

    /// Reads operands joined by binary operators, `*` and `/` binding
    /// tighter than `+` and `-`, and operators of one level grouping to the
    /// left. An operand is a number, a name, or a block; a name followed by
    /// arguments reads as the name alone (calls are read by `FuncCall::parse`).
    pub fn parse(s: &str) -> (r: Result<(&str, Expr), String>)
        ensures
            match r {
                Ok((rest, e)) => rest@.len() < s@.len() && p_expr(s@) == Some((rest@, expr_view(e))),
                Err(_) => p_expr(s@) is None,
            },
        decreases s@.len(), 4int,
    {
        Expr::parse_binding_power(s, 0)
    }
}

impl Block {
    /// Reads statements between braces, separated by blanks.
    pub fn parse(s: &str) -> (r: Result<(&str, Block), String>)
        ensures
            match r {
                Ok((rest, b)) => rest@.len() < s@.len() && p_block(s@) == Some(
                    (rest@, ExprV::Block(stmts_view(b.stmts@))),
                ),
                Err(_) => p_block(s@) is None,
            },
        decreases s@.len(), 1int,
    {
        proof {
            lemma_keywords();
        }
        let s1 = tag("{", s)?;
        let (mut cur, _) = extract_whitespaces(s1);
        let ghost start = cur@;
        let mut stmts: Vec<Stmt> = Vec::new();
        loop
            invariant
                cur@.len() < s@.len(),
                p_stmts(start) == (p_stmts(cur@).0, stmts_view(stmts@) + p_stmts(cur@).1),
            ensures
                cur@.len() < s@.len(),
                p_stmts(start) == (cur@, stmts_view(stmts@)),
            decreases cur@.len(),
        {
            match Stmt::parse(cur) {
                Ok((r, st)) => {
                    let ghost before = stmts@;
                    let ghost sv = stmt_view(st);
                    stmts.push(st);
                    proof {
                        assert(stmts@.drop_last() =~= before);
                        assert(stmts_view(stmts@) =~= stmts_view(before) + seq![sv]);
                    }
                    let (r1, _) = extract_whitespaces(r);
                    cur = r1;
                },
                Err(_) => {
                    assert(stmts_view(stmts@) + Seq::empty() =~= stmts_view(stmts@));
                    break;
                },
            }
        }
        let (r, _) = extract_whitespaces(cur);
        let rest = tag("}", r)?;
        Ok((rest, Block { stmts }))
    }
}

impl FuncCall {
    /// Reads a name followed by one or more arguments, separated by spaces.
    pub fn parse(s: &str) -> (r: Result<(&str, FuncCall), String>)
        ensures
            match r {
                Ok((rest, c)) => p_func_call(s@) == Some((rest@, ExprV::FuncCall(c.callee@, exprs_view(c.params@)))),
                Err(_) => p_func_call(s@) is None,
            },
    {
        let (s1, callee) = extract_ident(s)?;
        let (mut cur, _) = extract_spaces(s1);
        let ghost start = cur@;
        let mut params: Vec<Expr> = Vec::new();
        loop
            invariant
                p_args(start) == (p_args(cur@).0, exprs_view(params@) + p_args(cur@).1),
            ensures
                p_args(start) == (cur@, exprs_view(params@)),
            decreases cur@.len(),
        {
            match Expr::parse(cur) {
                Ok((r, e)) => {
                    let ghost before = params@;
                    let ghost ev = expr_view(e);
                    params.push(e);
                    proof {
                        assert(params@.drop_last() =~= before);
                        assert(exprs_view(params@) =~= exprs_view(before) + seq![ev]);
                    }
                    let (r1, _) = extract_spaces(r);
                    cur = r1;
                },
                Err(_) => {
                    assert(exprs_view(params@) + Seq::empty() =~= exprs_view(params@));
                    break;
                },
            }
        }
        if params.len() == 0 {
            return Err(String::from_str("expected a sequence with more than one item"));
        }
        Ok((cur, FuncCall { callee: String::from_str(callee), params }))
    }
}

pub proof fn lemma_exprs_view(s: Seq<Expr>)
    ensures
        exprs_view(s).len() == s.len(),
        forall|i: int| 0 <= i < s.len() ==> #[trigger] exprs_view(s)[i] == expr_view(s[i]),
    decreases s.len(),
{
    if s.len() > 0 {
        lemma_exprs_view(s.drop_last());
    }
}

pub proof fn lemma_stmts_view(s: Seq<Stmt>)
    ensures
        stmts_view(s).len() == s.len(),
        forall|i: int| 0 <= i < s.len() ==> #[trigger] stmts_view(s)[i] == stmt_view(s[i]),
    decreases s.len(),
{
    if s.len() > 0 {
        lemma_stmts_view(s.drop_last());
    }
}

/// A copy of each name.
pub fn copy_names(v: &Vec<String>) -> (r: Vec<String>)
    ensures
        names_view(r@) == names_view(v@),
{
    let mut r: Vec<String> = Vec::new();
    let mut i: usize = 0;
    while i < v.len()
        invariant
            i <= v@.len(),
            r@.len() == i,
            forall|j: int| 0 <= j < i ==> #[trigger] r@[j]@ == v@[j]@,
        decreases v@.len() - i,
    {
        r.push(v[i].clone());
        i = i + 1;
    }
    assert(names_view(r@) =~= names_view(v@));
    r
}

impl Expr {
    /// A copy of the expression.
    pub fn duplicate(&self) -> (r: Expr)
        ensures
            expr_view(r) == expr_view(*self),
        decreases self,
    {
        match self {
            Expr::Number(n) => Expr::Number(*n),
            Expr::Operation { lhs, rhs, op } => Expr::Operation {
                lhs: Box::new(lhs.duplicate()),
                rhs: Box::new(rhs.duplicate()),
                op: *op,
            },
            Expr::BindingUsage(b) => Expr::BindingUsage(BindingUsage { name: b.name.clone() }),
            Expr::Block(b) => {
                let mut stmts: Vec<Stmt> = Vec::new();
                let mut i: usize = 0;
                while i < b.stmts.len()
                    invariant
                        i <= b.stmts@.len(),
                        stmts@.len() == i,
                        *self == Expr::Block(*b),
                        forall|j: int| 0 <= j < i ==> #[trigger] stmt_view(stmts@[j]) == stmt_view(b.stmts@[j]),
                    decreases b.stmts@.len() - i,
                {
                    proof {
                        assert(decreases_to!(*self => self->Block_0));
                        assert(decreases_to!(*self => b.stmts[i as int]));
                    }
                    stmts.push(b.stmts[i].duplicate());
                    i = i + 1;
                }
                proof {
                    lemma_stmts_view(stmts@);
                    lemma_stmts_view(b.stmts@);
                    assert(stmts_view(stmts@) =~= stmts_view(b.stmts@));
                }
                Expr::Block(Block { stmts })
            },
            Expr::FuncCall(c) => {
                let mut params: Vec<Expr> = Vec::new();
                let mut i: usize = 0;
                while i < c.params.len()
                    invariant
                        i <= c.params@.len(),
                        params@.len() == i,
                        *self == Expr::FuncCall(*c),
                        forall|j: int| 0 <= j < i ==> #[trigger] expr_view(params@[j]) == expr_view(c.params@[j]),
                    decreases c.params@.len() - i,
                {
                    proof {
                        assert(decreases_to!(*self => self->FuncCall_0));
                        assert(decreases_to!(*self => c.params[i as int]));
                    }
                    params.push(c.params[i].duplicate());
                    i = i + 1;
                }
                proof {
                    lemma_exprs_view(params@);
                    lemma_exprs_view(c.params@);
                    assert(exprs_view(params@) =~= exprs_view(c.params@));
                }
                Expr::FuncCall(FuncCall { callee: c.callee.clone(), params })
            },
        }
    }
}

impl Stmt {
    /// A copy of the statement.
    pub fn duplicate(&self) -> (r: Stmt)
        ensures
            stmt_view(r) == stmt_view(*self),
        decreases self,
    {
        match self {
            Stmt::BindingDef(d) => Stmt::BindingDef(BindingDef { name: d.name.clone(), val: d.val.duplicate() }),
            Stmt::Expr(e) => Stmt::Expr(e.duplicate()),
            Stmt::FuncDef(f) => Stmt::FuncDef(FuncDef {
                name: f.name.clone(),
                params: copy_names(&f.params),
                body: Box::new(f.body.duplicate()),
            }),
        }
    }
}

} // verus!
