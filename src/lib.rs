//! A small language: a statement grammar with an evaluator over scoped
//! environments, and a lossless syntax tree built by a precedence-climbing
//! parser through a flat stream of events.
use vstd::prelude::*;

pub mod ast;
pub mod env;
pub mod eval;
pub mod event;
pub mod grammar;
pub mod lexer;
pub mod parser;
pub mod sink;
pub mod syntax;
pub mod utils;
pub mod val;

use crate::ast::{stmt_view, Stmt, StmtV};
use crate::env::Env;
use crate::eval::{eval_stmt, result_view, EvalError, MAX_CALL_DEPTH};
use crate::grammar::p_stmt;
use crate::utils::{extract_whitespaces, skip_ws};
use crate::val::Val;
use vstd::string::StrSliceExecFns;
use vstd::string::StringExecFns;

verus! {

/// A whole input read as one statement; only blanks may follow it.
pub open spec fn parse_unit(s: Seq<char>) -> Option<StmtV> {
    match p_stmt(s) {
        Some((rest, st)) => if skip_ws(rest).len() == 0 {
            Some(st)
        } else {
            None
        },
        None => None,
    }
}

/// One parsed statement, ready to be evaluated.
#[derive(Debug)]
pub struct Parse(Stmt);

impl View for Parse {
    type V = StmtV;

    closed spec fn view(&self) -> StmtV {
        stmt_view(self.0)
    }
}

impl Parse {
    pub fn eval(&self, env: &mut Env) -> (r: Result<Val, EvalError>)
        ensures
            (result_view(r), final(env)@) == eval_stmt(self@, old(env)@, MAX_CALL_DEPTH as nat),
    {
        self.0.eval(env)
    }
}

/// Reads `s` as one statement; fails where no statement matches or where
/// anything but blanks is left after it.
pub fn parse(s: &str) -> (r: Result<Parse, String>)
    ensures
        match r {
            Ok(p) => parse_unit(s@) == Some(p@),
            Err(_) => parse_unit(s@) is None,
        },
{
    let (rest, stmt) = Stmt::parse(s)?;
    let (rest, _) = extract_whitespaces(rest);
    if rest.unicode_len() == 0 {
        Ok(Parse(stmt))
    } else {
        Err(String::from_str("input was not consumed fully by parser"))
    }
}

} // verus!
