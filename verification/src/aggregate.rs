use vstd::prelude::*;
use vstd::string::StringExecFns;

use crate::cell::{
    Cell, CellVal, Row, cells_view, rows_view, spec_key_of, key_in_bounds, keys_match, key_of,
    keys_match_exec,
};
use crate::error::EngineError;

verus! {

/// An associative combiner for grouped reduction. `Sum` folds machine
/// integers with two's-complement wraparound, which keeps it total and
/// associative; `Min` and `Max` order integers; `Concat` joins strings.
#[derive(Clone, Copy, Debug, PartialEq, Eq, Structural)]
pub enum AggOp {
    Sum,
    Min,
    Max,
    Concat,
}

/// One grouped aggregation: merge the field at column `col` of records
/// sharing a key with operator `op`, keeping the first record's other fields.
#[derive(Clone, Copy, Debug, PartialEq, Eq, Structural)]
pub struct Reducer {
    pub col: usize,
    pub op: AggOp,
}

/// A single two's-complement wraparound of a sum of two machine integers.
pub open spec fn i64_wrap(v: int) -> int {
    if v > i64::MAX as int {
        v - 0x1_0000_0000_0000_0000
    } else if v < i64::MIN as int {
        v + 0x1_0000_0000_0000_0000
    } else {
        v
    }
}

/// Whether a cell is a fit operand for an aggregation operator: a missing
/// value, or a value of the operator's carrier type.
pub open spec fn agg_cell_ok(op: AggOp, c: CellVal) -> bool {
    match c {
        CellVal::Null => true,
        CellVal::Int(_) => op != AggOp::Concat,
        CellVal::Str(_) => op == AggOp::Concat,
        CellVal::Bool(_) => false,
    }
}

/// Whether an integer cell holds a machine-representable value. Cells that
/// flow out of executable rows always do.
pub open spec fn cell_in_range(c: CellVal) -> bool {
    match c {
        CellVal::Int(x) => i64::MIN <= x <= i64::MAX,
        _ => true,
    }
}

/// Merges two partial accumulator cells for the same key. Missing-strict,
/// like the record combiners this engine is asked to run: a missing operand
/// makes the merged value missing. Operands of the wrong carrier type are a
/// shape error.
pub open spec fn combine_cells(op: AggOp, a: CellVal, b: CellVal) -> Result<CellVal, EngineError> {
    match (a, b) {
        (CellVal::Null, _) => Ok(CellVal::Null),
        (_, CellVal::Null) => Ok(CellVal::Null),
        (CellVal::Int(x), CellVal::Int(y)) => match op {
            AggOp::Sum => Ok(CellVal::Int(i64_wrap(x + y))),
            AggOp::Min => Ok(CellVal::Int(if x <= y { x } else { y })),
            AggOp::Max => Ok(CellVal::Int(if x >= y { x } else { y })),
            AggOp::Concat => Err(EngineError::Schema),
        },
        (CellVal::Str(x), CellVal::Str(y)) => match op {
            AggOp::Concat => Ok(CellVal::Str(x + y)),
            _ => Err(EngineError::Schema),
        },
        _ => Err(EngineError::Schema),
    }
}

/// The reduce of one key's contributions, pairwise from the left. A single
/// contribution is returned unchanged: no combiner call is needed for a
/// singleton group.
pub open spec fn agg_fold(op: AggOp, s: Seq<CellVal>) -> Result<CellVal, EngineError>
    recommends
        s.len() > 0,
    decreases s.len(),
{
    if s.len() <= 1 {
        Ok(s[0])
    } else {
        match agg_fold(op, s.drop_last()) {
            Err(e) => Err(e),
            Ok(acc) => combine_cells(op, acc, s.last()),
        }
    }
}

/// A merge of fit, machine-representable operands never fails, and its
/// result is again fit and machine-representable.
pub proof fn lemma_combine_ok(op: AggOp, a: CellVal, b: CellVal)
    requires
        agg_cell_ok(op, a),
        agg_cell_ok(op, b),
        cell_in_range(a),
        cell_in_range(b),
    ensures
        combine_cells(op, a, b) is Ok,
        ({
            let r = combine_cells(op, a, b);
            match r {
                Ok(c) => agg_cell_ok(op, c) && cell_in_range(c),
                Err(_) => false,
            }
        }),
{
}

/// The combiner is associative on fit, machine-representable operands.
pub proof fn lemma_combine_assoc(op: AggOp, a: CellVal, b: CellVal, c: CellVal)
    requires
        agg_cell_ok(op, a),
        agg_cell_ok(op, b),
        agg_cell_ok(op, c),
        cell_in_range(a),
        cell_in_range(b),
        cell_in_range(c),
    ensures
        ({
            let ab = combine_cells(op, a, b);
            let bc = combine_cells(op, b, c);
            match (ab, bc) {
                (Ok(x), Ok(y)) => combine_cells(op, x, c) == combine_cells(op, a, y),
                _ => false,
            }
        }),
{
    lemma_combine_ok(op, a, b);
    lemma_combine_ok(op, b, c);
    match (a, b, c) {
        (CellVal::Str(x), CellVal::Str(y), CellVal::Str(z)) => {
            assert((x + y) + z =~= x + (y + z));
        },
        _ => {},
    }
}

/// A fold of fit, machine-representable contributions never fails, and its
/// value is again fit and machine-representable.
pub proof fn lemma_fold_ok(op: AggOp, s: Seq<CellVal>)
    requires
        s.len() > 0,
        forall|i: int| 0 <= i < s.len() ==> agg_cell_ok(op, #[trigger] s[i]) && cell_in_range(s[i]),
    ensures
        agg_fold(op, s) is Ok,
        ({
            let r = agg_fold(op, s);
            match r {
                Ok(c) => agg_cell_ok(op, c) && cell_in_range(c),
                Err(_) => false,
            }
        }),
    decreases s.len(),
{
    if s.len() > 1 {
        lemma_fold_ok(op, s.drop_last());
        match agg_fold(op, s.drop_last()) {
            Ok(acc) => {
                lemma_combine_ok(op, acc, s.last());
            },
            Err(_) => {},
        }
    }
}

/// Order-independence of grouped reduction over subgroup boundaries: for any
/// split of one key's contributions into two consecutive subgroups, merging
/// the two subgroups' partial accumulators equals reducing the whole group
/// at once, for every combiner this engine offers.
pub proof fn lemma_fold_partition(op: AggOp, s1: Seq<CellVal>, s2: Seq<CellVal>)
    requires
        s1.len() > 0,
        s2.len() > 0,
        forall|i: int| 0 <= i < s1.len() ==> agg_cell_ok(op, #[trigger] s1[i]) && cell_in_range(
            s1[i],
        ),
        forall|i: int| 0 <= i < s2.len() ==> agg_cell_ok(op, #[trigger] s2[i]) && cell_in_range(
            s2[i],
        ),
    ensures
        ({
            let f1 = agg_fold(op, s1);
            let f2 = agg_fold(op, s2);
            match (f1, f2) {
                (Ok(x), Ok(y)) => agg_fold(op, s1 + s2) == combine_cells(op, x, y),
                _ => false,
            }
        }),
    decreases s2.len(),
{
    lemma_fold_ok(op, s1);
    lemma_fold_ok(op, s2);
    let whole = s1 + s2;
    assert(forall|i: int|
        0 <= i < whole.len() ==> agg_cell_ok(op, #[trigger] whole[i]) && cell_in_range(whole[i]));
    if s2.len() == 1 {
        assert(whole.drop_last() =~= s1);
        assert(whole.last() == s2[0]);
        assert(agg_fold(op, s2) == Ok::<CellVal, EngineError>(s2[0]));
    } else {
        let front = s2.drop_last();
        lemma_fold_ok(op, front);
        lemma_fold_partition(op, s1, front);
        assert(whole.drop_last() =~= s1 + front);
        match (agg_fold(op, s1), agg_fold(op, front)) {
            (Ok(x), Ok(y)) => {
                lemma_combine_assoc(op, x, y, s2.last());
                assert(s2.drop_last() == front);
            },
            _ => {},
        }
    }
}

/// Merges two partial accumulator cells.
pub fn combine_cells_exec(op: AggOp, a: &Cell, b: &Cell) -> (res: Result<Cell, EngineError>)
    ensures
        crate::expr::res_cell_view(res) == combine_cells(op, a@, b@),
{
    match a {
        Cell::Null => Ok(Cell::Null),
        Cell::Int(x) => match b {
            Cell::Null => Ok(Cell::Null),
            Cell::Int(y) => match op {
                AggOp::Sum => Ok(Cell::Int(x.wrapping_add(*y))),
                AggOp::Min => Ok(Cell::Int(if *x <= *y { *x } else { *y })),
                AggOp::Max => Ok(Cell::Int(if *x >= *y { *x } else { *y })),
                AggOp::Concat => Err(EngineError::Schema),
            },
            _ => Err(EngineError::Schema),
        },
        Cell::Str(x) => match b {
            Cell::Null => Ok(Cell::Null),
            Cell::Str(y) => match op {
                AggOp::Concat => Ok(Cell::Str(x.clone().concat(y.as_str()))),
                _ => Err(EngineError::Schema),
            },
            _ => Err(EngineError::Schema),
        },
        Cell::Bool(_) => match b {
            Cell::Null => Ok(Cell::Null),
            _ => Err(EngineError::Schema),
        },
    }
}

/// Which accumulator a key merges into: the first group whose key it
/// matches, or -1 when none does. A key holding a missing value matches
/// nothing, so such a record always starts a group of its own.
pub open spec fn find_group(gs: Seq<Seq<CellVal>>, kc: Seq<usize>, k: Seq<CellVal>) -> int
    decreases gs.len(),
{
    if gs.len() == 0 {
        -1
    } else if keys_match(spec_key_of(gs[0], kc), k) {
        0
    } else {
        let r = find_group(gs.drop_first(), kc, k);
        if r < 0 {
            -1
        } else {
            r + 1
        }
    }
}

/// `find_group` returns the first matching index, or -1 without a match.
pub proof fn lemma_find_group_spec(gs: Seq<Seq<CellVal>>, kc: Seq<usize>, k: Seq<CellVal>)
    ensures
        ({
            let i = find_group(gs, kc, k);
            &&& -1 <= i < gs.len()
            &&& i >= 0 ==> keys_match(spec_key_of(gs[i], kc), k) && (forall|j: int|
                0 <= j < i ==> !keys_match(spec_key_of(#[trigger] gs[j], kc), k))
            &&& i == -1 ==> (forall|j: int|
                0 <= j < gs.len() ==> !keys_match(spec_key_of(#[trigger] gs[j], kc), k))
        }),
    decreases gs.len(),
{
    if gs.len() > 0 && !keys_match(spec_key_of(gs[0], kc), k) {
        let rest = gs.drop_first();
        lemma_find_group_spec(rest, kc, k);
        let r = find_group(rest, kc, k);
        let i = find_group(gs, kc, k);
        if r >= 0 {
            assert(gs[i] == rest[r]);
            assert forall|j: int| 0 <= j < i implies !keys_match(
                spec_key_of(#[trigger] gs[j], kc),
                k,
            ) by {
                if j > 0 {
                    assert(gs[j] == rest[j - 1]);
                }
            }
        } else {
            assert forall|j: int| 0 <= j < gs.len() implies !keys_match(
                spec_key_of(#[trigger] gs[j], kc),
                k,
            ) by {
                if j > 0 {
                    assert(gs[j] == rest[j - 1]);
                }
            }
        }
    }
}

/// The merged accumulator for one more record of a key: the aggregation
/// column is merged, every other field keeps the accumulator's value.
pub open spec fn combine_row(red: Reducer, acc: Seq<CellVal>, r: Seq<CellVal>) -> Result<
    Seq<CellVal>,
    EngineError,
> {
    if (red.col as int) < acc.len() && (red.col as int) < r.len() {
        match combine_cells(red.op, acc[red.col as int], r[red.col as int]) {
            Err(e) => Err(e),
            Ok(c) => Ok(acc.update(red.col as int, c)),
        }
    } else {
        Err(EngineError::Schema)
    }
}

/// One arrival step of grouped reduction: the record merges into the first
/// accumulator its key matches, or starts a new group.
pub open spec fn group_step(
    kc: Seq<usize>,
    red: Reducer,
    gs: Seq<Seq<CellVal>>,
    r: Seq<CellVal>,
) -> Result<Seq<Seq<CellVal>>, EngineError> {
    if !key_in_bounds(r, kc) {
        Err(EngineError::Schema)
    } else {
        let i = find_group(gs, kc, spec_key_of(r, kc));
        if i < 0 {
            Ok(gs.push(r))
        } else {
            match combine_row(red, gs[i], r) {
                Err(e) => Err(e),
                Ok(acc) => Ok(gs.update(i, acc)),
            }
        }
    }
}

/// Grouped reduction in arrival order: one accumulator per distinct key,
/// in order of first appearance.
pub open spec fn group_fold(kc: Seq<usize>, red: Reducer, t: Seq<Seq<CellVal>>) -> Result<
    Seq<Seq<CellVal>>,
    EngineError,
>
    decreases t.len(),
{
    if t.len() == 0 {
        Ok(Seq::empty())
    } else {
        match group_fold(kc, red, t.drop_last()) {
            Err(e) => Err(e),
            Ok(gs) => group_step(kc, red, gs, t.last()),
        }
    }
}

/// The group-by + reduce operator. It rejects a reducer whose aggregation
/// column is one of the key columns: merging there would drift the group's
/// identity, applying the combiner across keys.
pub open spec fn run_group_reduce(kc: Seq<usize>, red: Reducer, t: Seq<Seq<CellVal>>) -> Result<
    Seq<Seq<CellVal>>,
    EngineError,
> {
    if kc.contains(red.col) {
        Err(EngineError::Schema)
    } else {
        group_fold(kc, red, t)
    }
}

/// Merging leaves the accumulator's key columns untouched when the
/// aggregation column is no key column.
proof fn lemma_combine_row_key(red: Reducer, kc: Seq<usize>, acc: Seq<CellVal>, r: Seq<CellVal>)
    requires
        !kc.contains(red.col),
        key_in_bounds(acc, kc),
        combine_row(red, acc, r) is Ok,
    ensures
        match combine_row(red, acc, r) {
            Ok(acc2) => spec_key_of(acc2, kc) == spec_key_of(acc, kc) && acc2.len() == acc.len(),
            Err(_) => false,
        },
{
    match combine_row(red, acc, r) {
        Ok(acc2) => {
            assert forall|j: int| 0 <= j < kc.len() implies #[trigger] spec_key_of(acc2, kc)[j]
                == spec_key_of(acc, kc)[j] by {
                assert(kc[j] != red.col);
                assert((kc[j] as int) < acc.len());
                assert(acc2[kc[j] as int] == acc[kc[j] as int]);
            }
            assert(spec_key_of(acc2, kc) =~= spec_key_of(acc, kc));
        },
        Err(_) => {},
    }
}

/// Whether a witness record with this key stands in the table's prefix.
spec fn key_from_records(k: Seq<CellVal>, kc: Seq<usize>, t: Seq<Seq<CellVal>>) -> bool {
    exists|j: int| 0 <= j < t.len() && k == spec_key_of(#[trigger] t[j], kc)
}

/// Every accumulator has its key columns in bounds, and its key is the key
/// of some already-arrived record.
proof fn lemma_group_keys(kc: Seq<usize>, red: Reducer, t: Seq<Seq<CellVal>>, gs: Seq<Seq<CellVal>>)
    requires
        !kc.contains(red.col),
        group_fold(kc, red, t) == Ok::<Seq<Seq<CellVal>>, EngineError>(gs),
    ensures
        forall|g: int|
            0 <= g < gs.len() ==> key_in_bounds(#[trigger] gs[g], kc) && key_from_records(
                spec_key_of(gs[g], kc),
                kc,
                t,
            ),
    decreases t.len(),
{
    if t.len() > 0 {
        let prev = t.drop_last();
        let gs0 = match group_fold(kc, red, prev) {
            Ok(gs0) => gs0,
            Err(_) => Seq::empty(),
        };
        assert(group_fold(kc, red, prev) == Ok::<Seq<Seq<CellVal>>, EngineError>(gs0));
        lemma_group_keys(kc, red, prev, gs0);
        let r = t.last();
        let i = find_group(gs0, kc, spec_key_of(r, kc));
        lemma_find_group_spec(gs0, kc, spec_key_of(r, kc));
        assert(forall|j: int| 0 <= j < prev.len() ==> #[trigger] prev[j] == t[j]);
        assert(r == t[t.len() - 1]);
        assert(Ok::<Seq<Seq<CellVal>>, EngineError>(gs) == group_step(kc, red, gs0, r));
        assert forall|g: int| 0 <= g < gs.len() implies key_in_bounds(#[trigger] gs[g], kc)
            && key_from_records(spec_key_of(gs[g], kc), kc, t) by {
            if i < 0 && g == gs.len() - 1 {
                assert(gs[g] == r);
                assert(key_from_records(spec_key_of(gs[g], kc), kc, t));
            } else {
                if i >= 0 && g == i {
                    assert(key_in_bounds(gs0[g], kc));
                    lemma_combine_row_key(red, kc, gs0[i], r);
                    assert(spec_key_of(gs[g], kc) == spec_key_of(gs0[g], kc));
                    assert(gs[g].len() == gs0[g].len());
                } else {
                    assert(gs[g] == gs0[g]);
                }
                assert(key_from_records(spec_key_of(gs0[g], kc), kc, prev));
                let j0 = choose|j0: int|
                    0 <= j0 < prev.len() && spec_key_of(gs0[g], kc) == spec_key_of(
                        #[trigger] prev[j0],
                        kc,
                    );
                assert(spec_key_of(gs[g], kc) == spec_key_of(t[j0], kc));
                assert(key_from_records(spec_key_of(gs[g], kc), kc, t));
            }
        }
    }
}

/// Reduce over a singleton-key group returns that record's contribution
/// unchanged: a record whose key matches no other record's key flows through
/// grouped reduction as it arrived, and the combiner is never applied to it.
pub proof fn lemma_reduce_singleton_key(
    kc: Seq<usize>,
    red: Reducer,
    t: Seq<Seq<CellVal>>,
    gs: Seq<Seq<CellVal>>,
    i: int,
)
    requires
        run_group_reduce(kc, red, t) == Ok::<Seq<Seq<CellVal>>, EngineError>(gs),
        0 <= i < t.len(),
        forall|j: int|
            0 <= j < t.len() && j != i ==> !keys_match(
                spec_key_of(t[i], kc),
                spec_key_of(#[trigger] t[j], kc),
            ),
    ensures
        exists|g: int| 0 <= g < gs.len() && gs[g] == t[i],
    decreases t.len(),
{
    let prev = t.drop_last();
    let gs0 = match group_fold(kc, red, prev) {
        Ok(gs0) => gs0,
        Err(_) => Seq::empty(),
    };
    assert(group_fold(kc, red, prev) == Ok::<Seq<Seq<CellVal>>, EngineError>(gs0));
    let r = t.last();
    let k = spec_key_of(r, kc);
    let fi = find_group(gs0, kc, k);
    lemma_find_group_spec(gs0, kc, k);
    lemma_group_keys(kc, red, prev, gs0);
    assert(forall|j: int| 0 <= j < prev.len() ==> #[trigger] prev[j] == t[j]);
    assert(r == t[t.len() - 1]);
    assert(Ok::<Seq<Seq<CellVal>>, EngineError>(gs) == group_step(kc, red, gs0, r));
    if i == t.len() - 1 {
        if fi >= 0 {
            assert(keys_match(spec_key_of(gs0[fi], kc), k));
            assert(key_from_records(spec_key_of(gs0[fi], kc), kc, prev));
            let j0 = choose|j0: int|
                0 <= j0 < prev.len() && spec_key_of(gs0[fi], kc) == spec_key_of(
                    #[trigger] prev[j0],
                    kc,
                );
            assert(keys_match(spec_key_of(t[i], kc), spec_key_of(t[j0], kc)));
            assert(false);
        }
        assert(gs == gs0.push(r));
        assert(gs[gs.len() - 1] == t[i]);
    } else {
        assert(run_group_reduce(kc, red, prev) == Ok::<Seq<Seq<CellVal>>, EngineError>(gs0));
        assert(forall|j: int|
            0 <= j < prev.len() && j != i ==> !keys_match(
                spec_key_of(prev[i], kc),
                spec_key_of(#[trigger] prev[j], kc),
            ));
        lemma_reduce_singleton_key(kc, red, prev, gs0, i);
        let g0 = choose|g0: int| 0 <= g0 < gs0.len() && gs0[g0] == prev[i];
        assert(gs0[g0] == t[i]);
        if fi < 0 {
            assert(gs == gs0.push(r));
            assert(gs[g0] == t[i]);
        } else {
            if fi == g0 {
                assert(keys_match(spec_key_of(gs0[fi], kc), k));
                assert(keys_match(spec_key_of(t[i], kc), spec_key_of(t[t.len() - 1], kc)));
                assert(false);
            }
            match combine_row(red, gs0[fi], r) {
                Ok(acc2) => {
                    assert(gs == gs0.update(fi, acc2));
                    assert(gs[g0] == t[i]);
                },
                Err(_) => {
                    assert(false);
                },
            }
        }
    }
}

/// The contributions one column gathers from a table, in arrival order.
pub open spec fn col_vals(t: Seq<Seq<CellVal>>, col: usize) -> Seq<CellVal> {
    t.map(|i: int, r: Seq<CellVal>| r[col as int])
}

/// Grouped reduction over a table whose records all share one matching key
/// is the first record with the aggregation column replaced by the fold of
/// every record's contribution, in arrival order. Together with the
/// partition law of `agg_fold`, reducing such a group gives the same value
/// however its records are split into subgroups.
pub proof fn lemma_group_reduce_single_key(kc: Seq<usize>, red: Reducer, t: Seq<Seq<CellVal>>)
    requires
        t.len() > 0,
        !kc.contains(red.col),
        forall|i: int, j: int|
            0 <= i < t.len() && 0 <= j < t.len() ==> keys_match(
                spec_key_of(#[trigger] t[i], kc),
                spec_key_of(#[trigger] t[j], kc),
            ),
        forall|i: int| 0 <= i < t.len() ==> key_in_bounds(#[trigger] t[i], kc),
        forall|i: int| 0 <= i < t.len() ==> (red.col as int) < #[trigger] t[i].len(),
        forall|i: int|
            0 <= i < t.len() ==> agg_cell_ok(red.op, #[trigger] t[i][red.col as int])
                && cell_in_range(t[i][red.col as int]),
    ensures
        ({
            let vals = col_vals(t, red.col);
            match (run_group_reduce(kc, red, t), agg_fold(red.op, vals)) {
                (Ok(gs), Ok(total)) => gs == seq![t[0].update(red.col as int, total)],
                _ => false,
            }
        }),
    decreases t.len(),
{
    let vals = col_vals(t, red.col);
    assert(forall|i: int| 0 <= i < t.len() ==> #[trigger] vals[i] == t[i][red.col as int]);
    lemma_fold_ok(red.op, vals);
    if t.len() == 1 {
        reveal_with_fuel(group_fold, 2);
        assert(group_fold(kc, red, t) == group_step(kc, red, Seq::empty(), t[0]));
        assert(find_group(Seq::empty(), kc, spec_key_of(t[0], kc)) == -1);
        assert(agg_fold(red.op, vals) == Ok::<CellVal, EngineError>(vals[0]));
        assert(t[0].update(red.col as int, t[0][red.col as int]) =~= t[0]);
        assert(Seq::<Seq<CellVal>>::empty().push(t[0]) =~= seq![t[0]]);
    } else {
        let prev = t.drop_last();
        assert(forall|i: int| 0 <= i < prev.len() ==> #[trigger] prev[i] == t[i]);
        lemma_group_reduce_single_key(kc, red, prev);
        let pvals = col_vals(prev, red.col);
        assert(pvals =~= vals.drop_last());
        lemma_fold_ok(red.op, pvals);
        let ptotal = match agg_fold(red.op, pvals) {
            Ok(c) => c,
            Err(_) => CellVal::Null,
        };
        let acc = prev[0].update(red.col as int, ptotal);
        assert(group_fold(kc, red, prev) == Ok::<Seq<Seq<CellVal>>, EngineError>(seq![acc]));
        let r = t.last();
        assert(r == t[t.len() - 1]);
        let k = spec_key_of(r, kc);
        lemma_combine_row_key_cols(red, kc, prev[0], ptotal);
        assert(spec_key_of(acc, kc) == spec_key_of(t[0], kc));
        assert(keys_match(spec_key_of(t[0], kc), k));
        assert(keys_match(spec_key_of(seq![acc][0], kc), k));
        assert(find_group(seq![acc], kc, k) == 0);
        assert(acc.len() == t[0].len());
        assert(acc[red.col as int] == ptotal);
        match combine_cells(red.op, ptotal, r[red.col as int]) {
            Ok(total) => {
                assert(agg_fold(red.op, vals) == Ok::<CellVal, EngineError>(total));
                assert(combine_row(red, acc, r) == Ok::<Seq<CellVal>, EngineError>(
                    acc.update(red.col as int, total),
                ));
                assert(acc.update(red.col as int, total) =~= t[0].update(red.col as int, total));
                assert(seq![acc].update(0, acc.update(red.col as int, total)) =~= seq![
                    t[0].update(red.col as int, total),
                ]);
            },
            Err(_) => {
                lemma_combine_ok(red.op, ptotal, r[red.col as int]);
            },
        }
    }
}

/// Replacing the aggregation column leaves the key columns as they were,
/// when the aggregation column is no key column.
proof fn lemma_combine_row_key_cols(red: Reducer, kc: Seq<usize>, r: Seq<CellVal>, c: CellVal)
    requires
        !kc.contains(red.col),
        (red.col as int) < r.len(),
        forall|i: int| 0 <= i < kc.len() ==> (kc[i] as int) < r.len(),
    ensures
        spec_key_of(r.update(red.col as int, c), kc) == spec_key_of(r, kc),
{
    let upd = r.update(red.col as int, c);
    assert forall|j: int| 0 <= j < kc.len() implies #[trigger] spec_key_of(upd, kc)[j]
        == spec_key_of(r, kc)[j] by {
        assert(kc[j] != red.col);
        assert(upd[kc[j] as int] == r[kc[j] as int]);
    }
    assert(spec_key_of(upd, kc) =~= spec_key_of(r, kc));
}

/// A record on which the arrival step fails makes the whole reduction fail
/// with its error, provided every record before it was folded.
proof fn lemma_group_fold_err_at(
    kc: Seq<usize>,
    red: Reducer,
    t: Seq<Seq<CellVal>>,
    gs: Seq<Seq<CellVal>>,
    i: int,
    e: EngineError,
)
    requires
        0 <= i < t.len(),
        group_fold(kc, red, t.take(i)) == Ok::<Seq<Seq<CellVal>>, EngineError>(gs),
        group_step(kc, red, gs, t[i]) == Err::<Seq<Seq<CellVal>>, EngineError>(e),
    ensures
        group_fold(kc, red, t) == Err::<Seq<Seq<CellVal>>, EngineError>(e),
    decreases t.len(),
{
    if i == t.len() - 1 {
        assert(t.take(i) =~= t.drop_last());
    } else {
        assert(t.drop_last().take(i) =~= t.take(i));
        lemma_group_fold_err_at(kc, red, t.drop_last(), gs, i, e);
    }
}

/// The accumulator a key merges into, if one exists.
fn find_group_exec(groups: &Vec<Row>, kc: &Vec<usize>, k: &Vec<Cell>) -> (res: Option<usize>)
    requires
        forall|g: int| 0 <= g < groups@.len() ==> key_in_bounds(#[trigger] groups@[g]@, kc@),
    ensures
        ({
            let fi = find_group(rows_view(groups@), kc@, cells_view(k@));
            match res {
                Some(m) => fi == m as int,
                None => fi == -1,
            }
        }),
{
    let ghost gs = rows_view(groups@);
    let ghost kv = cells_view(k@);
    let mut m: usize = 0;
    while m < groups.len()
        invariant
            m <= groups.len(),
            gs == rows_view(groups@),
            kv == cells_view(k@),
            forall|g: int| 0 <= g < groups@.len() ==> key_in_bounds(#[trigger] groups@[g]@, kc@),
            forall|j: int| 0 <= j < m ==> !keys_match(spec_key_of(#[trigger] gs[j], kc@), kv),
        decreases groups.len() - m,
    {
        let gk = match key_of(&groups[m], kc) {
            Some(g) => g,
            None => {
                proof {
                    assert(key_in_bounds(groups@[m as int]@, kc@));
                    assert(false);
                }
                return None;
            },
        };
        if keys_match_exec(&gk, k) {
            proof {
                lemma_find_group_spec(gs, kc@, kv);
                assert(keys_match(spec_key_of(gs[m as int], kc@), kv));
            }
            return Some(m);
        }
        proof {
            assert(gs[m as int] == groups@[m as int]@);
        }
        m = m + 1;
    }
    proof {
        lemma_find_group_spec(gs, kc@, kv);
    }
    None
}

/// The group-by + reduce operator: partitions the stream by key, folds the
/// combiner over each key's records in arrival order, and emits one record
/// per distinct key, in order of first appearance. A reducer whose
/// aggregation column is a key column is rejected as ambiguous.
pub fn group_reduce(kc: &Vec<usize>, red: Reducer, rows: &Vec<Row>) -> (res: Result<
    Vec<Row>,
    EngineError,
>)
    ensures
        match res {
            Ok(out) => run_group_reduce(kc@, red, rows_view(rows@)) == Ok::<
                Seq<Seq<CellVal>>,
                EngineError,
            >(rows_view(out@)),
            Err(e) => run_group_reduce(kc@, red, rows_view(rows@)) == Err::<
                Seq<Seq<CellVal>>,
                EngineError,
            >(e),
        },
{
    let mut ki: usize = 0;
    while ki < kc.len()
        invariant
            ki <= kc.len(),
            forall|j: int| 0 <= j < ki ==> kc@[j] != red.col,
        decreases kc.len() - ki,
    {
        if kc[ki] == red.col {
            return Err(EngineError::Schema);
        }
        ki = ki + 1;
    }
    proof {
        assert(!kc@.contains(red.col));
    }
    let ghost t = rows_view(rows@);
    let mut groups: Vec<Row> = Vec::new();
    let mut i: usize = 0;
    proof {
        assert(t.take(0) =~= Seq::<Seq<CellVal>>::empty());
        assert(rows_view(groups@) =~= Seq::<Seq<CellVal>>::empty());
    }
    while i < rows.len()
        invariant
            i <= rows.len(),
            t == rows_view(rows@),
            !kc@.contains(red.col),
            group_fold(kc@, red, t.take(i as int)) == Ok::<Seq<Seq<CellVal>>, EngineError>(
                rows_view(groups@),
            ),
            forall|g: int| 0 <= g < groups@.len() ==> key_in_bounds(#[trigger] groups@[g]@, kc@),
        decreases rows.len() - i,
    {
        let ghost gs = rows_view(groups@);
        let ghost r = t[i as int];
        proof {
            assert(r == rows@[i as int]@);
            assert(t.take(i as int + 1).drop_last() =~= t.take(i as int));
            assert(t.take(i as int + 1).last() == r);
        }
        let k = match key_of(&rows[i], kc) {
            Some(k) => k,
            None => {
                proof {
                    lemma_group_fold_err_at(kc@, red, t, gs, i as int, EngineError::Schema);
                }
                return Err(EngineError::Schema);
            },
        };
        match find_group_exec(&groups, kc, &k) {
            None => {
                let ghost prev = groups@;
                groups.push(rows[i].dup());
                proof {
                    assert(rows_view(groups@) =~= rows_view(prev).push(r));
                    assert(group_fold(kc@, red, t.take(i as int + 1)) == Ok::<
                        Seq<Seq<CellVal>>,
                        EngineError,
                    >(rows_view(groups@)));
                }
            },
            Some(m) => {
                proof {
                    lemma_find_group_spec(gs, kc@, cells_view(k@));
                }
                if red.col >= groups[m].cells.len() || red.col >= rows[i].cells.len() {
                    proof {
                        assert(combine_row(red, gs[m as int], r) == Err::<
                            Seq<CellVal>,
                            EngineError,
                        >(EngineError::Schema));
                        lemma_group_fold_err_at(kc@, red, t, gs, i as int, EngineError::Schema);
                    }
                    return Err(EngineError::Schema);
                }
                match combine_cells_exec(red.op, &groups[m].cells[red.col], &rows[i].cells[red.col])
                {
                    Err(e) => {
                        proof {
                            lemma_group_fold_err_at(kc@, red, t, gs, i as int, e);
                        }
                        return Err(e);
                    },
                    Ok(c) => {
                        let ghost cv = c@;
                        let mut acc = groups[m].dup();
                        acc.cells.set(red.col, c);
                        proof {
                            assert(acc@ =~= gs[m as int].update(red.col as int, cv));
                        }
                        let ghost av = acc@;
                        let ghost prev = groups@;
                        groups.set(m, acc);
                        proof {
                            assert(rows_view(groups@) =~= rows_view(prev).update(m as int, av));
                            assert(combine_row(red, gs[m as int], r) == Ok::<
                                Seq<CellVal>,
                                EngineError,
                            >(av));
                            assert(group_fold(kc@, red, t.take(i as int + 1)) == Ok::<
                                Seq<Seq<CellVal>>,
                                EngineError,
                            >(rows_view(groups@)));
                        }
                    },
                }
            },
        }
        i = i + 1;
    }
    proof {
        assert(t.take(t.len() as int) =~= t);
    }
    Ok(groups)
}

} // verus!
