use vstd::prelude::*;

use crate::cell::{Cell, CellVal, Row};
use crate::error::EngineError;

verus! {

/// An arithmetic operator of a transform expression.
#[derive(Clone, Copy, Debug, PartialEq, Eq, Structural)]
pub enum ArithOp {
    Add,
    Sub,
    Mul,
}

/// A pure per-record transform expression. A map stage evaluates one
/// expression per output column against the input record.
#[derive(Debug)]
pub enum Expr {
    /// The value of the input column at this index.
    Col(usize),
    /// A constant.
    Lit(Cell),
    /// Integer arithmetic on both operands; a missing operand makes the
    /// result missing, and a non-integer present operand is a shape error.
    Arith(ArithOp, Box<Expr>, Box<Expr>),
}

/// A comparison operator of a filter predicate.
#[derive(Clone, Copy, Debug, PartialEq, Eq, Structural)]
pub enum CmpOp {
    Eq,
    Lt,
    Gt,
}

/// A pure per-record filter predicate. A missing operand makes every
/// comparison false: a null never equals and never orders against anything,
/// itself included. Both arms of a conjunction or disjunction are always
/// evaluated, so an error in either arm is reported.
#[derive(Debug)]
pub enum Pred {
    Cmp(CmpOp, Expr, Expr),
    And(Box<Pred>, Box<Pred>),
    Or(Box<Pred>, Box<Pred>),
    Not(Box<Pred>),
}

/// The mathematical value of one arithmetic operator.
pub open spec fn apply_arith(op: ArithOp, x: int, y: int) -> int {
    match op {
        ArithOp::Add => x + y,
        ArithOp::Sub => x - y,
        ArithOp::Mul => x * y,
    }
}

/// One arithmetic step on cell values: missing operands propagate, integer
/// results must fit the machine word, and any other present operand is a
/// shape error.
pub open spec fn arith_cells(op: ArithOp, x: CellVal, y: CellVal) -> Result<CellVal, EngineError> {
    match (x, y) {
        (CellVal::Null, _) => Ok(CellVal::Null),
        (_, CellVal::Null) => Ok(CellVal::Null),
        (CellVal::Int(a), CellVal::Int(b)) => {
            let v = apply_arith(op, a, b);
            if i64::MIN <= v <= i64::MAX {
                Ok(CellVal::Int(v))
            } else {
                Err(EngineError::Execution)
            }
        },
        _ => Err(EngineError::Schema),
    }
}

/// One comparison on cell values: false whenever an operand is missing,
/// integer ordering on integers, equality alone on strings and booleans.
pub open spec fn compare_cells(op: CmpOp, x: CellVal, y: CellVal) -> Result<bool, EngineError> {
    match (x, y) {
        (CellVal::Null, _) => Ok(false),
        (_, CellVal::Null) => Ok(false),
        (CellVal::Int(a), CellVal::Int(b)) => Ok(
            match op {
                CmpOp::Eq => a == b,
                CmpOp::Lt => a < b,
                CmpOp::Gt => a > b,
            },
        ),
        (CellVal::Str(a), CellVal::Str(b)) => if op is Eq {
            Ok(a == b)
        } else {
            Err(EngineError::Schema)
        },
        (CellVal::Bool(a), CellVal::Bool(b)) => if op is Eq {
            Ok(a == b)
        } else {
            Err(EngineError::Schema)
        },
        _ => Err(EngineError::Schema),
    }
}

/// What an expression evaluates to on one record.
pub open spec fn eval_expr(e: Expr, r: Seq<CellVal>) -> Result<CellVal, EngineError>
    decreases e,
{
    match e {
        Expr::Col(c) => if (c as int) < r.len() {
            Ok(r[c as int])
        } else {
            Err(EngineError::Schema)
        },
        Expr::Lit(v) => Ok(v@),
        Expr::Arith(op, a, b) => match (eval_expr(*a, r), eval_expr(*b, r)) {
            (Err(e1), _) => Err(e1),
            (Ok(_), Err(e2)) => Err(e2),
            (Ok(x), Ok(y)) => arith_cells(op, x, y),
        },
    }
}

/// What a predicate evaluates to on one record.
pub open spec fn eval_pred(p: Pred, r: Seq<CellVal>) -> Result<bool, EngineError>
    decreases p,
{
    match p {
        Pred::Cmp(op, a, b) => match (eval_expr(a, r), eval_expr(b, r)) {
            (Err(e1), _) => Err(e1),
            (Ok(_), Err(e2)) => Err(e2),
            (Ok(x), Ok(y)) => compare_cells(op, x, y),
        },
        Pred::And(a, b) => match (eval_pred(*a, r), eval_pred(*b, r)) {
            (Err(e1), _) => Err(e1),
            (Ok(_), Err(e2)) => Err(e2),
            (Ok(x), Ok(y)) => Ok(x && y),
        },
        Pred::Or(a, b) => match (eval_pred(*a, r), eval_pred(*b, r)) {
            (Err(e1), _) => Err(e1),
            (Ok(_), Err(e2)) => Err(e2),
            (Ok(x), Ok(y)) => Ok(x || y),
        },
        Pred::Not(a) => match eval_pred(*a, r) {
            Err(e1) => Err(e1),
            Ok(x) => Ok(!x),
        },
    }
}

/// The value of an evaluation result.
pub open spec fn res_cell_view(res: Result<Cell, EngineError>) -> Result<CellVal, EngineError> {
    match res {
        Ok(c) => Ok(c@),
        Err(e) => Err(e),
    }
}

/// One arithmetic step on cells.
pub fn arith_cells_exec(op: ArithOp, x: &Cell, y: &Cell) -> (res: Result<Cell, EngineError>)
    ensures
        res_cell_view(res) == arith_cells(op, x@, y@),
{
    match x {
        Cell::Null => Ok(Cell::Null),
        Cell::Int(a) => match y {
            Cell::Null => Ok(Cell::Null),
            Cell::Int(b) => {
                proof {
                    let ai = *a as int;
                    let bi = *b as int;
                    assert(-0x4000_0000_0000_0000_0000_0000_0000_0000 <= ai * bi
                        <= 0x4000_0000_0000_0000_0000_0000_0000_0000) by (nonlinear_arith)
                        requires
                            -0x8000_0000_0000_0000 <= ai <= 0x7fff_ffff_ffff_ffff,
                            -0x8000_0000_0000_0000 <= bi <= 0x7fff_ffff_ffff_ffff,
                    ;
                }
                let wide: i128 = match op {
                    ArithOp::Add => *a as i128 + *b as i128,
                    ArithOp::Sub => *a as i128 - *b as i128,
                    ArithOp::Mul => *a as i128 * *b as i128,
                };
                if i64::MIN as i128 <= wide && wide <= i64::MAX as i128 {
                    Ok(Cell::Int(wide as i64))
                } else {
                    Err(EngineError::Execution)
                }
            },
            _ => Err(EngineError::Schema),
        },
        _ => match y {
            Cell::Null => Ok(Cell::Null),
            _ => Err(EngineError::Schema),
        },
    }
}

/// One comparison on cells.
pub fn compare_cells_exec(op: CmpOp, x: &Cell, y: &Cell) -> (res: Result<bool, EngineError>)
    ensures
        res == compare_cells(op, x@, y@),
{
    match x {
        Cell::Null => Ok(false),
        Cell::Int(a) => match y {
            Cell::Null => Ok(false),
            Cell::Int(b) => Ok(
                match op {
                    CmpOp::Eq => *a == *b,
                    CmpOp::Lt => *a < *b,
                    CmpOp::Gt => *a > *b,
                },
            ),
            _ => Err(EngineError::Schema),
        },
        Cell::Str(a) => match y {
            Cell::Null => Ok(false),
            Cell::Str(b) => match op {
                CmpOp::Eq => Ok(*a == *b),
                _ => Err(EngineError::Schema),
            },
            _ => Err(EngineError::Schema),
        },
        Cell::Bool(a) => match y {
            Cell::Null => Ok(false),
            Cell::Bool(b) => match op {
                CmpOp::Eq => Ok(*a == *b),
                _ => Err(EngineError::Schema),
            },
            _ => Err(EngineError::Schema),
        },
    }
}

/// Evaluates an expression on one record.
pub fn eval_expr_exec(e: &Expr, r: &Row) -> (res: Result<Cell, EngineError>)
    ensures
        res_cell_view(res) == eval_expr(*e, r@),
    decreases e,
{
    match e {
        Expr::Col(c) => {
            if *c < r.cells.len() {
                Ok(r.cells[*c].dup())
            } else {
                Err(EngineError::Schema)
            }
        },
        Expr::Lit(v) => Ok(v.dup()),
        Expr::Arith(op, a, b) => match eval_expr_exec(&**a, r) {
            Err(e1) => Err(e1),
            Ok(x) => match eval_expr_exec(&**b, r) {
                Err(e2) => Err(e2),
                Ok(y) => arith_cells_exec(*op, &x, &y),
            },
        },
    }
}

/// Evaluates a predicate on one record.
pub fn eval_pred_exec(p: &Pred, r: &Row) -> (res: Result<bool, EngineError>)
    ensures
        res == eval_pred(*p, r@),
    decreases p,
{
    match p {
        Pred::Cmp(op, a, b) => match eval_expr_exec(a, r) {
            Err(e1) => Err(e1),
            Ok(x) => match eval_expr_exec(b, r) {
                Err(e2) => Err(e2),
                Ok(y) => compare_cells_exec(*op, &x, &y),
            },
        },
        Pred::And(a, b) => match eval_pred_exec(&**a, r) {
            Err(e1) => Err(e1),
            Ok(x) => match eval_pred_exec(&**b, r) {
                Err(e2) => Err(e2),
                Ok(y) => Ok(x && y),
            },
        },
        Pred::Or(a, b) => match eval_pred_exec(&**a, r) {
            Err(e1) => Err(e1),
            Ok(x) => match eval_pred_exec(&**b, r) {
                Err(e2) => Err(e2),
                Ok(y) => Ok(x || y),
            },
        },
        Pred::Not(a) => match eval_pred_exec(&**a, r) {
            Err(e1) => Err(e1),
            Ok(x) => Ok(!x),
        },
    }
}

/// Whether every column an expression reads lies below `n`.
pub open spec fn expr_cols_ok(e: Expr, n: int) -> bool
    decreases e,
{
    match e {
        Expr::Col(c) => (c as int) < n,
        Expr::Lit(_) => true,
        Expr::Arith(_, a, b) => expr_cols_ok(*a, n) && expr_cols_ok(*b, n),
    }
}

/// Whether every column a predicate reads lies below `n`.
pub open spec fn pred_cols_ok(p: Pred, n: int) -> bool
    decreases p,
{
    match p {
        Pred::Cmp(_, a, b) => expr_cols_ok(a, n) && expr_cols_ok(b, n),
        Pred::And(a, b) => pred_cols_ok(*a, n) && pred_cols_ok(*b, n),
        Pred::Or(a, b) => pred_cols_ok(*a, n) && pred_cols_ok(*b, n),
        Pred::Not(a) => pred_cols_ok(*a, n),
    }
}

/// Structural substitution: `out` is `e` with every column reference
/// replaced by the expression the map stage writes into that column.
pub open spec fn is_subst_expr(e: Expr, es: Seq<Expr>, out: Expr) -> bool
    decreases e,
{
    match e {
        Expr::Col(c) => (c as int) < es.len() && out == es[c as int],
        Expr::Lit(_) => out == e,
        Expr::Arith(op, a, b) => match out {
            Expr::Arith(op2, oa, ob) => op2 == op && is_subst_expr(*a, es, *oa) && is_subst_expr(
                *b,
                es,
                *ob,
            ),
            _ => false,
        },
    }
}

/// Structural substitution of a predicate through a map stage's expressions.
pub open spec fn is_subst_pred(p: Pred, es: Seq<Expr>, out: Pred) -> bool
    decreases p,
{
    match p {
        Pred::Cmp(op, a, b) => match out {
            Pred::Cmp(op2, oa, ob) => op2 == op && is_subst_expr(a, es, oa) && is_subst_expr(
                b,
                es,
                ob,
            ),
            _ => false,
        },
        Pred::And(a, b) => match out {
            Pred::And(oa, ob) => is_subst_pred(*a, es, *oa) && is_subst_pred(*b, es, *ob),
            _ => false,
        },
        Pred::Or(a, b) => match out {
            Pred::Or(oa, ob) => is_subst_pred(*a, es, *oa) && is_subst_pred(*b, es, *ob),
            _ => false,
        },
        Pred::Not(a) => match out {
            Pred::Not(oa) => is_subst_pred(*a, es, *oa),
            _ => false,
        },
    }
}

/// Translates an expression to run before the map stage it used to follow,
/// by writing the map's expression in place of each column it reads. Fails
/// with a shape error exactly when it reads a column the map does not write.
pub fn subst_expr(e: &Expr, es: &Vec<Expr>) -> (res: Result<Expr, EngineError>)
    ensures
        res is Ok <==> expr_cols_ok(*e, es@.len() as int),
        match res {
            Ok(o) => is_subst_expr(*e, es@, o),
            Err(err) => err == EngineError::Schema,
        },
    decreases e,
{
    match e {
        Expr::Col(c) => {
            if *c < es.len() {
                Ok(es[*c].dup())
            } else {
                Err(EngineError::Schema)
            }
        },
        Expr::Lit(v) => Ok(Expr::Lit(v.dup())),
        Expr::Arith(op, a, b) => match subst_expr(&**a, es) {
            Err(e1) => Err(e1),
            Ok(oa) => match subst_expr(&**b, es) {
                Err(e2) => Err(e2),
                Ok(ob) => Ok(Expr::Arith(*op, Box::new(oa), Box::new(ob))),
            },
        },
    }
}

/// Translates a filter predicate to run before the map stage it used to
/// follow. Fails with a shape error exactly when the predicate reads a
/// column the map does not write.
pub fn subst_pred(p: &Pred, es: &Vec<Expr>) -> (res: Result<Pred, EngineError>)
    ensures
        res is Ok <==> pred_cols_ok(*p, es@.len() as int),
        match res {
            Ok(o) => is_subst_pred(*p, es@, o),
            Err(err) => err == EngineError::Schema,
        },
    decreases p,
{
    match p {
        Pred::Cmp(op, a, b) => match subst_expr(a, es) {
            Err(e1) => Err(e1),
            Ok(oa) => match subst_expr(b, es) {
                Err(e2) => Err(e2),
                Ok(ob) => Ok(Pred::Cmp(*op, oa, ob)),
            },
        },
        Pred::And(a, b) => match subst_pred(&**a, es) {
            Err(e1) => Err(e1),
            Ok(oa) => match subst_pred(&**b, es) {
                Err(e2) => Err(e2),
                Ok(ob) => Ok(Pred::And(Box::new(oa), Box::new(ob))),
            },
        },
        Pred::Or(a, b) => match subst_pred(&**a, es) {
            Err(e1) => Err(e1),
            Ok(oa) => match subst_pred(&**b, es) {
                Err(e2) => Err(e2),
                Ok(ob) => Ok(Pred::Or(Box::new(oa), Box::new(ob))),
            },
        },
        Pred::Not(a) => match subst_pred(&**a, es) {
            Err(e1) => Err(e1),
            Ok(oa) => Ok(Pred::Not(Box::new(oa))),
        },
    }
}

impl Expr {
    /// A deep copy whose result is known to equal the original.
    pub fn dup(&self) -> (r: Expr)
        ensures
            r == *self,
        decreases self,
    {
        match self {
            Expr::Col(c) => Expr::Col(*c),
            Expr::Lit(v) => Expr::Lit(v.dup()),
            Expr::Arith(op, a, b) => Expr::Arith(*op, Box::new(a.dup()), Box::new(b.dup())),
        }
    }
}

impl Pred {
    /// A deep copy whose result is known to equal the original.
    pub fn dup(&self) -> (r: Pred)
        ensures
            r == *self,
        decreases self,
    {
        match self {
            Pred::Cmp(op, a, b) => Pred::Cmp(*op, a.dup(), b.dup()),
            Pred::And(a, b) => Pred::And(Box::new(a.dup()), Box::new(b.dup())),
            Pred::Or(a, b) => Pred::Or(Box::new(a.dup()), Box::new(b.dup())),
            Pred::Not(a) => Pred::Not(Box::new(a.dup())),
        }
    }
}

} // verus!
