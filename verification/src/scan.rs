use vstd::prelude::*;

use crate::aggregate::{cell_in_range, i64_wrap};
use crate::cell::{Cell, CellVal, Row, cells_view, rows_view, spec_key_of, key_in_bounds,
    keys_match, key_of, keys_match_exec};
use crate::error::EngineError;

verus! {

/// Whether two records of a table fold into the same accumulator: a record
/// always belongs to its own group, and two records share a group exactly
/// when their keys match. A key holding a missing value matches nothing, so
/// such a record forms a group of itself alone.
pub open spec fn same_group(t: Seq<Seq<CellVal>>, kc: Seq<usize>, i: int, j: int) -> bool {
    i == j || keys_match(spec_key_of(t[i], kc), spec_key_of(t[j], kc))
}

/// The contribution of one cell to a running sum: a missing value counts as
/// zero, mirroring a seed that defaults absent measurements.
pub open spec fn scan_cell_val(c: CellVal) -> int {
    match c {
        CellVal::Int(x) => x,
        _ => 0,
    }
}

/// Whether a record fits the scan: key columns in bounds, the value column
/// in bounds and holding an integer or a missing value.
pub open spec fn scan_row_ok(r: Seq<CellVal>, kc: Seq<usize>, vc: usize) -> bool {
    &&& key_in_bounds(r, kc)
    &&& (vc as int) < r.len()
    &&& (r[vc as int] is Null || r[vc as int] is Int)
}

/// The running sum of record `i`'s group over the first `n` records,
/// folded with two's-complement wraparound in arrival order.
pub open spec fn scan_sum_upto(
    t: Seq<Seq<CellVal>>,
    kc: Seq<usize>,
    vc: usize,
    i: int,
    n: int,
) -> int
    decreases n,
{
    if n <= 0 {
        0
    } else {
        let rest = scan_sum_upto(t, kc, vc, i, n - 1);
        if same_group(t, kc, i, n - 1) {
            i64_wrap(rest + scan_cell_val(t[n - 1][vc as int]))
        } else {
            rest
        }
    }
}

/// How many of the first `n` records fold into record `i`'s group.
pub open spec fn scan_cnt_upto(t: Seq<Seq<CellVal>>, kc: Seq<usize>, i: int, n: int) -> int
    decreases n,
{
    if n <= 0 {
        0
    } else {
        let rest = scan_cnt_upto(t, kc, i, n - 1);
        if same_group(t, kc, i, n - 1) {
            rest + 1
        } else {
            rest
        }
    }
}

/// The sum of record `i`'s whole group: the fully-reduced accumulator that
/// the finalize phase sees for every member of the group.
pub open spec fn group_sum(t: Seq<Seq<CellVal>>, kc: Seq<usize>, vc: usize, i: int) -> int {
    scan_sum_upto(t, kc, vc, i, t.len() as int)
}

/// The size of record `i`'s whole group.
pub open spec fn group_cnt(t: Seq<Seq<CellVal>>, kc: Seq<usize>, i: int) -> int {
    scan_cnt_upto(t, kc, i, t.len() as int)
}

/// The record the scan emits for input record `i`: the record itself,
/// widened by its group's total and its group's size.
pub open spec fn scan_out_row(t: Seq<Seq<CellVal>>, kc: Seq<usize>, vc: usize, i: int) -> Seq<
    CellVal,
> {
    t[i] + seq![
        CellVal::Int(group_sum(t, kc, vc, i)),
        CellVal::Int(group_cnt(t, kc, i)),
    ]
}

/// The windowed scan operator: exactly one output record per input record,
/// in input order, each carrying the accumulator of its key's complete fold.
pub open spec fn run_reduce_scan(kc: Seq<usize>, vc: usize, t: Seq<Seq<CellVal>>) -> Result<
    Seq<Seq<CellVal>>,
    EngineError,
> {
    if t.len() > i64::MAX as int {
        Err(EngineError::Execution)
    } else if exists|i: int| 0 <= i < t.len() && !scan_row_ok(#[trigger] t[i], kc, vc) {
        Err(EngineError::Schema)
    } else {
        Ok(Seq::new(t.len(), |i: int| scan_out_row(t, kc, vc, i)))
    }
}

/// Every cell of an executable row holds a machine-representable value.
proof fn lemma_row_cells_in_range(r: Row)
    ensures
        forall|c: int| 0 <= c < r@.len() ==> cell_in_range(#[trigger] r@[c]),
{
    assert forall|c: int| 0 <= c < r@.len() implies cell_in_range(#[trigger] r@[c]) by {
        assert(r@[c] == r.cells@[c]@);
    }
}

/// A running sum over machine-representable contributions stays within the
/// machine range.
proof fn lemma_scan_sum_range(t: Seq<Seq<CellVal>>, kc: Seq<usize>, vc: usize, i: int, n: int)
    requires
        n <= t.len(),
        forall|j: int| 0 <= j < t.len() ==> cell_in_range(#[trigger] t[j][vc as int]),
    ensures
        i64::MIN <= scan_sum_upto(t, kc, vc, i, n) <= i64::MAX,
    decreases n,
{
    if n > 0 {
        lemma_scan_sum_range(t, kc, vc, i, n - 1);
    }
}

/// For any fixed key, the scan's running-aggregate fields are identical
/// across all members of that key's group: finalize sees the fully-reduced
/// accumulator, not a per-record prefix.
pub proof fn lemma_scan_group_constant(
    t: Seq<Seq<CellVal>>,
    kc: Seq<usize>,
    vc: usize,
    i: int,
    j: int,
)
    requires
        0 <= i < t.len(),
        0 <= j < t.len(),
        keys_match(spec_key_of(t[i], kc), spec_key_of(t[j], kc)),
    ensures
        group_sum(t, kc, vc, i) == group_sum(t, kc, vc, j),
        group_cnt(t, kc, i) == group_cnt(t, kc, j),
{
    assert forall|m: int| 0 <= m < t.len() implies same_group(t, kc, i, m) == same_group(
        t,
        kc,
        j,
        m,
    ) by {}
    lemma_scan_agree(t, kc, vc, i, j, t.len() as int);
}

/// Two records whose groups agree on membership accumulate the same sum and
/// the same count over any prefix.
proof fn lemma_scan_agree(t: Seq<Seq<CellVal>>, kc: Seq<usize>, vc: usize, i: int, j: int, n: int)
    requires
        n <= t.len(),
        forall|m: int|
            0 <= m < t.len() ==> same_group(t, kc, i, m) == same_group(t, kc, j, m),
    ensures
        scan_sum_upto(t, kc, vc, i, n) == scan_sum_upto(t, kc, vc, j, n),
        scan_cnt_upto(t, kc, i, n) == scan_cnt_upto(t, kc, j, n),
    decreases n,
{
    if n > 0 {
        lemma_scan_agree(t, kc, vc, i, j, n - 1);
    }
}

/// The group-by + windowed-scan operator: folds every key's records in
/// arrival order and emits, for each input record, that record widened by
/// its group's running sum over the value column and its group's size. The
/// accumulator each output carries reflects the key's complete membership:
/// collection happens only after the bounded input is exhausted.
pub fn reduce_scan(kc: &Vec<usize>, vc: usize, rows: &Vec<Row>) -> (res: Result<
    Vec<Row>,
    EngineError,
>)
    ensures
        match res {
            Ok(out) => run_reduce_scan(kc@, vc, rows_view(rows@)) == Ok::<
                Seq<Seq<CellVal>>,
                EngineError,
            >(rows_view(out@)),
            Err(e) => run_reduce_scan(kc@, vc, rows_view(rows@)) == Err::<
                Seq<Seq<CellVal>>,
                EngineError,
            >(e),
        },
{
    let ghost t = rows_view(rows@);
    if rows.len() as u64 > i64::MAX as u64 {
        return Err(EngineError::Execution);
    }
    // validate every record's shape before any fold
    let mut v: usize = 0;
    while v < rows.len()
        invariant
            v <= rows.len(),
            t == rows_view(rows@),
            rows@.len() <= i64::MAX as int,
            forall|j: int| 0 <= j < v ==> scan_row_ok(#[trigger] t[j], kc@, vc),
        decreases rows.len() - v,
    {
        proof {
            assert(t[v as int] == rows@[v as int]@);
        }
        let row_ok = match key_of(&rows[v], kc) {
            None => false,
            Some(_) => {
                if vc >= rows[v].cells.len() {
                    false
                } else {
                    match &rows[v].cells[vc] {
                        Cell::Null => true,
                        Cell::Int(_) => true,
                        _ => false,
                    }
                }
            },
        };
        if !row_ok {
            proof {
                assert(!scan_row_ok(t[v as int], kc@, vc));
                assert(t.len() <= i64::MAX as int);
                assert(exists|b: int| 0 <= b < t.len() && !scan_row_ok(#[trigger] t[b], kc@, vc));
                assert(run_reduce_scan(kc@, vc, t) == Err::<Seq<Seq<CellVal>>, EngineError>(
                    EngineError::Schema,
                ));
            }
            return Err(EngineError::Schema);
        }
        v = v + 1;
    }
    let ghost expected = Seq::new(t.len(), |i: int| scan_out_row(t, kc@, vc, i));
    let mut out: Vec<Row> = Vec::new();
    let mut i: usize = 0;
    while i < rows.len()
        invariant
            i <= rows.len(),
            t == rows_view(rows@),
            rows@.len() <= i64::MAX as int,
            forall|j: int| 0 <= j < t.len() ==> scan_row_ok(#[trigger] t[j], kc@, vc),
            expected == Seq::new(t.len(), |g: int| scan_out_row(t, kc@, vc, g)),
            out@.len() == i,
            forall|g: int| 0 <= g < i ==> #[trigger] out@[g]@ == expected[g],
        decreases rows.len() - i,
    {
        proof {
            assert(t[i as int] == rows@[i as int]@);
        }
        let ki = match key_of(&rows[i], kc) {
            Some(k) => k,
            None => {
                proof {
                    assert(false);
                }
                return Err(EngineError::Schema);
            },
        };
        let mut s: i64 = 0;
        let mut c: i64 = 0;
        let mut j: usize = 0;
        proof {
            lemma_row_cells_in_range(rows[i as int]);
            assert forall|m: int| 0 <= m < t.len() implies cell_in_range(
                #[trigger] t[m][vc as int],
            ) by {
                lemma_row_cells_in_range(rows@[m]);
                assert(t[m] == rows@[m]@);
            }
        }
        while j < rows.len()
            invariant
                j <= rows.len(),
                i < rows.len(),
                t == rows_view(rows@),
                rows@.len() <= i64::MAX as int,
                forall|m: int| 0 <= m < t.len() ==> scan_row_ok(#[trigger] t[m], kc@, vc),
                forall|m: int| 0 <= m < t.len() ==> cell_in_range(#[trigger] t[m][vc as int]),
                cells_view(ki@) == spec_key_of(t[i as int], kc@),
                s as int == scan_sum_upto(t, kc@, vc, i as int, j as int),
                c as int == scan_cnt_upto(t, kc@, i as int, j as int),
                0 <= c <= j,
            decreases rows.len() - j,
        {
            proof {
                assert(t[j as int] == rows@[j as int]@);
            }
            let member = if i == j {
                true
            } else {
                let kj = match key_of(&rows[j], kc) {
                    Some(k) => k,
                    None => {
                        proof {
                            assert(false);
                        }
                        return Err(EngineError::Schema);
                    },
                };
                keys_match_exec(&ki, &kj)
            };
            proof {
                assert(member == same_group(t, kc@, i as int, j as int));
            }
            if member {
                let val: i64 = match &rows[j].cells[vc] {
                    Cell::Int(x) => *x,
                    _ => 0i64,
                };
                proof {
                    assert(val as int == scan_cell_val(t[j as int][vc as int]));
                    lemma_scan_sum_range(t, kc@, vc, i as int, j as int);
                }
                s = s.wrapping_add(val);
                c = c + 1;
            }
            j = j + 1;
        }
        let mut nr = rows[i].dup();
        nr.cells.push(Cell::Int(s));
        nr.cells.push(Cell::Int(c));
        proof {
            assert(nr@ =~= t[i as int] + seq![
                CellVal::Int(s as int),
                CellVal::Int(c as int),
            ]);
            assert(nr@ == scan_out_row(t, kc@, vc, i as int));
        }
        out.push(nr);
        i = i + 1;
    }
    proof {
        assert(rows_view(out@) =~= expected);
        assert(run_reduce_scan(kc@, vc, t) == Ok::<Seq<Seq<CellVal>>, EngineError>(
            rows_view(out@),
        ));
    }
    Ok(out)
}

} // verus!
