use vstd::prelude::*;
use vstd::string::StringExecFns;

use crate::cell::{Cell, CellVal, Row, rows_view};
use crate::error::EngineError;

verus! {

/// The carrier type of a column.
#[derive(Clone, Copy, Debug, PartialEq, Eq, Structural)]
pub enum ColType {
    Int,
    Str,
    Bool,
}

/// One declared column: a name, a carrier type, and whether the field may
/// be missing. A record shape is an ordered list of columns; field order is
/// significant for serialization, not for keying or equality.
#[derive(Debug)]
pub struct Column {
    pub name: String,
    pub ty: ColType,
    pub nullable: bool,
}

/// The kind of an equi-join, deciding which sides of the output shape must
/// widen to nullable.
#[derive(Clone, Copy, Debug, PartialEq, Eq, Structural)]
pub enum JoinKind {
    Inner,
    Left,
    Outer,
}

/// Whether a cell fits a column's declaration: missing only where the
/// column is nullable, a present value only of the declared carrier type.
/// The engine performs no implicit coercion between shapes.
pub open spec fn cell_conforms(c: CellVal, ty: ColType, nullable: bool) -> bool {
    match c {
        CellVal::Null => nullable,
        CellVal::Int(_) => ty == ColType::Int,
        CellVal::Str(_) => ty == ColType::Str,
        CellVal::Bool(_) => ty == ColType::Bool,
    }
}

/// Whether a record fits a declared shape, field by field.
pub open spec fn row_conforms(r: Seq<CellVal>, schema: Seq<Column>) -> bool {
    &&& r.len() == schema.len()
    &&& forall|i: int|
        0 <= i < r.len() ==> cell_conforms(#[trigger] r[i], schema[i].ty, schema[i].nullable)
}

/// Whether a cell fits a column's declaration.
pub fn cell_conforms_exec(c: &Cell, ty: ColType, nullable: bool) -> (r: bool)
    ensures
        r == cell_conforms(c@, ty, nullable),
{
    match c {
        Cell::Null => nullable,
        Cell::Int(_) => matches!(ty, ColType::Int),
        Cell::Str(_) => matches!(ty, ColType::Str),
        Cell::Bool(_) => matches!(ty, ColType::Bool),
    }
}

/// Ingestion validation: every record of an opened source must parse
/// against the declared shape. A record that does not is fatal to the
/// pipeline run; there is no partial-stream recovery.
pub fn validate_table(rows: &Vec<Row>, schema: &Vec<Column>) -> (res: Result<(), EngineError>)
    ensures
        match res {
            Ok(_) => forall|i: int|
                0 <= i < rows@.len() ==> row_conforms(#[trigger] rows_view(rows@)[i], schema@),
            Err(e) => e == EngineError::Source && exists|i: int|
                0 <= i < rows@.len() && !row_conforms(#[trigger] rows_view(rows@)[i], schema@),
        },
{
    let ghost t = rows_view(rows@);
    let mut i: usize = 0;
    while i < rows.len()
        invariant
            i <= rows.len(),
            t == rows_view(rows@),
            forall|j: int| 0 <= j < i ==> row_conforms(#[trigger] t[j], schema@),
        decreases rows.len() - i,
    {
        proof {
            assert(t[i as int] == rows@[i as int]@);
        }
        if rows[i].cells.len() != schema.len() {
            proof {
                assert(!row_conforms(t[i as int], schema@));
            }
            return Err(EngineError::Source);
        }
        let mut c: usize = 0;
        while c < schema.len()
            invariant
                c <= schema@.len(),
                i < rows@.len(),
                t == rows_view(rows@),
                rows@[i as int].cells@.len() == schema@.len(),
                forall|m: int|
                    0 <= m < c ==> cell_conforms(
                        #[trigger] t[i as int][m],
                        schema@[m].ty,
                        schema@[m].nullable,
                    ),
            decreases schema.len() - c,
        {
            proof {
                assert(t[i as int][c as int] == rows@[i as int].cells@[c as int]@);
            }
            if !cell_conforms_exec(&rows[i].cells[c], schema[c].ty, schema[c].nullable) {
                proof {
                    assert(!cell_conforms(
                        t[i as int][c as int],
                        schema@[c as int].ty,
                        schema@[c as int].nullable,
                    ));
                    assert(!row_conforms(t[i as int], schema@));
                }
                return Err(EngineError::Source);
            }
            c = c + 1;
        }
        proof {
            assert(row_conforms(t[i as int], schema@));
        }
        i = i + 1;
    }
    Ok(())
}

/// Lifts a shape to nullable: the same columns, every one accepting a
/// missing value. A strict-shape stream must be lifted explicitly before it
/// joins against a nullable-shape stream, mirroring how outer joins widen
/// a non-matched side.
pub fn lift_nullable(schema: &Vec<Column>) -> (out: Vec<Column>)
    ensures
        out@.len() == schema@.len(),
        forall|i: int|
            0 <= i < out@.len() ==> (#[trigger] out@[i]).name@ == schema@[i].name@ && out@[i].ty
                == schema@[i].ty && out@[i].nullable,
{
    let mut out: Vec<Column> = Vec::new();
    let mut i: usize = 0;
    while i < schema.len()
        invariant
            i <= schema@.len(),
            out@.len() == i,
            forall|j: int|
                0 <= j < i ==> (#[trigger] out@[j]).name@ == schema@[j].name@ && out@[j].ty
                    == schema@[j].ty && out@[j].nullable,
        decreases schema.len() - i,
    {
        let ghost prev = out@;
        out.push(Column { name: schema[i].name.clone(), ty: schema[i].ty, nullable: true });
        proof {
            assert forall|j: int| 0 <= j < i + 1 implies (#[trigger] out@[j]).name@
                == schema@[j].name@ && out@[j].ty == schema@[j].ty && out@[j].nullable by {
                if j < i {
                    assert(out@[j] == prev[j]);
                }
            }
        }
        i = i + 1;
    }
    out
}

/// Whether a name stands among these columns.
pub open spec fn name_in(n: Seq<char>, cols: Seq<Column>) -> bool {
    exists|i: int| 0 <= i < cols.len() && #[trigger] cols[i].name@ == n
}

/// The title a right column keeps in a join output: its own name, unless
/// the left side declares the same name — then the right side loses the
/// collision and is suffixed, rather than silently shadowed.
pub open spec fn right_name(n: Seq<char>, left: Seq<Column>) -> Seq<char> {
    if name_in(n, left) {
        n + "_right"@
    } else {
        n
    }
}

/// Whether a name stands among these columns.
fn name_in_exec(n: &String, cols: &Vec<Column>) -> (r: bool)
    ensures
        r == name_in(n@, cols@),
{
    let mut i: usize = 0;
    while i < cols.len()
        invariant
            i <= cols@.len(),
            forall|j: int| 0 <= j < i ==> #[trigger] cols@[j].name@ != n@,
        decreases cols.len() - i,
    {
        if cols[i].name == *n {
            return true;
        }
        i = i + 1;
    }
    false
}

/// The declared shape of a join output: the left columns under their own
/// names, then the right columns, each suffixed where its name collides
/// with a left column. The side a join may leave absent is widened to
/// nullable: the right side for a left join, both sides for a full outer
/// join. The join key columns of both sides are retained as visible output
/// fields.
pub fn join_output_schema(left: &Vec<Column>, right: &Vec<Column>, kind: JoinKind) -> (out: Vec<
    Column,
>)
    ensures
        out@.len() == left@.len() + right@.len(),
        forall|i: int|
            0 <= i < left@.len() ==> (#[trigger] out@[i]).name@ == left@[i].name@ && out@[i].ty
                == left@[i].ty && out@[i].nullable == (left@[i].nullable || kind == JoinKind::Outer),
        forall|j: int|
            0 <= j < right@.len() ==> (#[trigger] out@[left@.len() + j]).name@ == right_name(
                right@[j].name@,
                left@,
            ) && out@[left@.len() + j].ty == right@[j].ty && out@[left@.len() + j].nullable == (
            right@[j].nullable || kind != JoinKind::Inner),
{
    let mut out: Vec<Column> = Vec::new();
    let mut i: usize = 0;
    while i < left.len()
        invariant
            i <= left@.len(),
            out@.len() == i,
            forall|j: int|
                0 <= j < i ==> (#[trigger] out@[j]).name@ == left@[j].name@ && out@[j].ty
                    == left@[j].ty && out@[j].nullable == (left@[j].nullable || kind
                    == JoinKind::Outer),
        decreases left.len() - i,
    {
        let nullable = left[i].nullable || matches!(kind, JoinKind::Outer);
        let ghost prev = out@;
        out.push(Column { name: left[i].name.clone(), ty: left[i].ty, nullable });
        proof {
            assert forall|j: int| 0 <= j < i + 1 implies (#[trigger] out@[j]).name@
                == left@[j].name@ && out@[j].ty == left@[j].ty && out@[j].nullable == (
            left@[j].nullable || kind == JoinKind::Outer) by {
                if j < i {
                    assert(out@[j] == prev[j]);
                }
            }
        }
        i = i + 1;
    }
    let mut j: usize = 0;
    while j < right.len()
        invariant
            j <= right@.len(),
            out@.len() == left@.len() + j,
            forall|m: int|
                0 <= m < left@.len() ==> (#[trigger] out@[m]).name@ == left@[m].name@ && out@[m].ty
                    == left@[m].ty && out@[m].nullable == (left@[m].nullable || kind
                    == JoinKind::Outer),
            forall|m: int|
                0 <= m < j ==> (#[trigger] out@[left@.len() + m]).name@ == right_name(
                    right@[m].name@,
                    left@,
                ) && out@[left@.len() + m].ty == right@[m].ty && out@[left@.len() + m].nullable == (
                right@[m].nullable || kind != JoinKind::Inner),
        decreases right.len() - j,
    {
        let name = if name_in_exec(&right[j].name, left) {
            right[j].name.clone().concat("_right")
        } else {
            right[j].name.clone()
        };
        let nullable = right[j].nullable || !matches!(kind, JoinKind::Inner);
        let ghost prev = out@;
        proof {
            assert(name@ == right_name(right@[j as int].name@, left@));
        }
        out.push(Column { name, ty: right[j].ty, nullable });
        proof {
            assert forall|m: int| 0 <= m < left@.len() implies (#[trigger] out@[m]).name@
                == left@[m].name@ && out@[m].ty == left@[m].ty && out@[m].nullable == (
            left@[m].nullable || kind == JoinKind::Outer) by {
                assert(out@[m] == prev[m]);
            }
            assert forall|m: int| 0 <= m < j + 1 implies (#[trigger] out@[left@.len() + m]).name@
                == right_name(right@[m].name@, left@) && out@[left@.len() + m].ty == right@[m].ty
                && out@[left@.len() + m].nullable == (right@[m].nullable || kind
                != JoinKind::Inner) by {
                if m < j {
                    assert(out@[left@.len() + m] == prev[left@.len() + m]);
                }
            }
        }
        j = j + 1;
    }
    out
}

} // verus!
