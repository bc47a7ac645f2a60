//! The statement and expression grammar, stated over character sequences.
//! Each rule maps the input to the part left unread and the syntax read, or
//! to `None` where the rule does not match (and so reads nothing).
use vstd::prelude::*;
use crate::ast::{ExprV, Op, StmtV};
use crate::utils::{lemma_span_le, starts_with_word, digits_len, ident_len, is_op_char, skip, skip_spaces, skip_ws, starts_with};

verus! {

broadcast use lemma_span_le;

/// The value of a string of decimal digits.
pub open spec fn digits_value(d: Seq<char>) -> int
    decreases d.len(),
{
    if d.len() == 0 {
        0
    } else {
        digits_value(d.drop_last()) * 10 + (d.last() as int - '0' as int)
    }
}

pub open spec fn op_of(c: char) -> Op {
    if c == '+' {
        Op::Add
    } else if c == '-' {
        Op::Sub
    } else if c == '*' {
        Op::Mul
    } else {
        Op::Div
    }
}

/// Left binding power: how strongly an operator holds the operand before it.
pub open spec fn left_power(op: Op) -> int {
    match op {
        Op::Add | Op::Sub => 1,
        Op::Mul | Op::Div => 3,
    }
}

/// Right binding power: one more than the left one, so that operators of one
/// level group to the left.
pub open spec fn right_power(op: Op) -> int {
    left_power(op) + 1
}

/// A decimal literal that fits in an `i32`.
pub open spec fn p_number(s: Seq<char>) -> Option<(Seq<char>, i32)> {
    let k = digits_len(s) as int;
    if k > 0 && digits_value(s.subrange(0, k)) <= i32::MAX {
        Some((skip(s, k), digits_value(s.subrange(0, k)) as i32))
    } else {
        None
    }
}

pub open spec fn p_op(s: Seq<char>) -> Option<(Seq<char>, Op)> {
    if s.len() > 0 && is_op_char(s[0]) {
        Some((skip(s, 1), op_of(s[0])))
    } else {
        None
    }
}

pub open spec fn p_ident(s: Seq<char>) -> Option<(Seq<char>, Seq<char>)> {
    let k = ident_len(s) as int;
    if k > 0 {
        Some((skip(s, k), s.subrange(0, k)))
    } else {
        None
    }
}

/// Parameter names, each followed by blanks; reads none where `s` starts
/// with no identifier.
pub open spec fn p_params(s: Seq<char>) -> (Seq<char>, Seq<Seq<char>>)
    decreases s.len(),
{
    let k = ident_len(s) as int;
    if 0 < k <= s.len() {
        let rest = p_params(skip_ws(skip(s, k)));
        (rest.0, seq![s.subrange(0, k)] + rest.1)
    } else {
        (s, Seq::empty())
    }
}

/// `stmt := binding_def | func_def | expr`, the first that matches.
pub open spec fn p_stmt(s: Seq<char>) -> Option<(Seq<char>, StmtV)>
    decreases s.len(), 6int,
{
    match p_binding_def(s) {
        Some((r, st)) => Some((r, st)),
        None => match p_func_def(s) {
            Some((r, st)) => Some((r, st)),
            None => match p_expr(s) {
                Some((r, e)) => Some((r, StmtV::Expr(e))),
                None => None,
            },
        },
    }
}

/// `binding_def := "let" ident "=" expr`, with optional blanks between;
/// `let` must not run on into a longer word.
pub open spec fn p_binding_def(s: Seq<char>) -> Option<(Seq<char>, StmtV)>
    decreases s.len(), 5int,
{
    if starts_with_word(s, seq!['l', 'e', 't']) {
        let s1 = skip_ws(skip(s, 3));
        match p_ident(s1) {
            Some((s2, name)) => {
                let s3 = skip_ws(s2);
                if starts_with(s3, seq!['=']) && s3.len() < s.len() {
                    match p_expr(skip_ws(skip(s3, 1))) {
                        Some((r, e)) => Some((r, StmtV::BindingDef(name, e))),
                        None => None,
                    }
                } else {
                    None
                }
            },
            None => None,
        }
    } else {
        None
    }
}

/// `func_def := "fn" ident ident* "=>" stmt`, with optional blanks between;
/// `fn` must not run on into a longer word.
pub open spec fn p_func_def(s: Seq<char>) -> Option<(Seq<char>, StmtV)>
    decreases s.len(), 5int,
{
    if starts_with_word(s, seq!['f', 'n']) {
        let s1 = skip_ws(skip(s, 2));
        match p_ident(s1) {
            Some((s2, name)) => {
                let (s3, params) = p_params(skip_ws(s2));
                if starts_with(s3, seq!['=', '>']) && s3.len() < s.len() {
                    match p_stmt(skip_ws(skip(s3, 2))) {
                        Some((r, body)) => Some((r, StmtV::FuncDef(name, params, Box::new(body)))),
                        None => None,
                    }
                } else {
                    None
                }
            },
            None => None,
        }
    } else {
        None
    }
}

/// An expression: operands joined by binary operators, grouped by binding
/// power.
pub open spec fn p_expr(s: Seq<char>) -> Option<(Seq<char>, ExprV)>
    decreases s.len(), 4int,
{
    p_expr_bp(s, 0)
}

/// An operand, then the operators (with their right operands) that bind at
/// least as strongly as `min`.
pub open spec fn p_expr_bp(s: Seq<char>, min: int) -> Option<(Seq<char>, ExprV)>
    decreases s.len(), 3int,
{
    match p_operand(s) {
        Some((r, lhs)) => if r.len() < s.len() {
            Some(p_chain(lhs, r, min))
        } else {
            None
        },
        None => None,
    }
}

/// Extends `lhs` with the operators at the start of `s`, as long as they bind
/// at least as strongly as `min` and are followed by an operand; leaves `s`
/// as it is where they are not.
pub open spec fn p_chain(lhs: ExprV, s: Seq<char>, min: int) -> (Seq<char>, ExprV)
    decreases s.len(), 2int,
{
    match p_op(skip_ws(s)) {
        Some((s1, op)) => if left_power(op) >= min && s1.len() < s.len() {
            match p_expr_bp(skip_ws(s1), right_power(op)) {
                Some((r, rhs)) => if r.len() < s.len() {
                    p_chain(ExprV::Operation { lhs: Box::new(lhs), rhs: Box::new(rhs), op }, r, min)
                } else {
                    (s, lhs)
                },
                None => (s, lhs),
            }
        } else {
            (s, lhs)
        },
        None => (s, lhs),
    }
}

/// `operand := number | ident | block`, the first that matches.
pub open spec fn p_operand(s: Seq<char>) -> Option<(Seq<char>, ExprV)>
    decreases s.len(), 2int,
{
    match p_number(s) {
        Some((r, n)) => Some((r, ExprV::Number(n))),
        None => match p_ident(s) {
            Some((r, name)) => Some((r, ExprV::BindingUsage(name))),
            None => p_block(s),
        },
    }
}

/// `block := "{" stmt* "}"`, with optional blanks between.
pub open spec fn p_block(s: Seq<char>) -> Option<(Seq<char>, ExprV)>
    decreases s.len(), 1int,
{
    if starts_with(s, seq!['{']) {
        let (r, stmts) = p_stmts(skip_ws(skip(s, 1)));
        let r1 = skip_ws(r);
        if starts_with(r1, seq!['}']) {
            Some((skip(r1, 1), ExprV::Block(stmts)))
        } else {
            None
        }
    } else {
        None
    }
}

/// As many statements as match, each followed by optional blanks.
pub open spec fn p_stmts(s: Seq<char>) -> (Seq<char>, Seq<StmtV>)
    decreases s.len() + 1, 0int,
{
    match p_stmt(s) {
        Some((r, st)) => if r.len() < s.len() {
            let rest = p_stmts(skip_ws(r));
            (rest.0, seq![st] + rest.1)
        } else {
            (s, Seq::empty())
        },
        None => (s, Seq::empty()),
    }
}

/// `func_call := ident expr+`, the arguments separated by spaces.
pub open spec fn p_func_call(s: Seq<char>) -> Option<(Seq<char>, ExprV)> {
    match p_ident(s) {
        Some((r, callee)) => {
            let (r1, args) = p_args(skip_spaces(r));
            if args.len() > 0 {
                Some((r1, ExprV::FuncCall(callee, args)))
            } else {
                None
            }
        },
        None => None,
    }
}

/// As many expressions as match, each followed by optional spaces.
pub open spec fn p_args(s: Seq<char>) -> (Seq<char>, Seq<ExprV>)
    decreases s.len(),
{
    match p_expr(s) {
        Some((r, e)) => if r.len() < s.len() {
            let rest = p_args(skip_spaces(r));
            (rest.0, seq![e] + rest.1)
        } else {
            (s, Seq::empty())
        },
        None => (s, Seq::empty()),
    }
}

} // verus!
