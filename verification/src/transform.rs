use vstd::prelude::*;

use crate::cell::{CellVal, Row, rows_view, cells_view};
use crate::error::EngineError;
use crate::expr::{Expr, Pred, eval_expr, eval_pred, eval_expr_exec, eval_pred_exec};

verus! {

/// The record a map stage produces from one input record: one evaluated
/// expression per output column, the first failing column's error otherwise.
pub open spec fn map_row(es: Seq<Expr>, r: Seq<CellVal>) -> Result<Seq<CellVal>, EngineError>
    decreases es.len(),
{
    if es.len() == 0 {
        Ok(Seq::empty())
    } else {
        match (map_row(es.drop_last(), r), eval_expr(es.last(), r)) {
            (Err(e), _) => Err(e),
            (Ok(_), Err(e)) => Err(e),
            (Ok(init), Ok(v)) => Ok(init.push(v)),
        }
    }
}

/// What a map stage produces on a whole table: every record transformed,
/// or the first failing record's error.
pub open spec fn run_map(es: Seq<Expr>, t: Seq<Seq<CellVal>>) -> Result<
    Seq<Seq<CellVal>>,
    EngineError,
>
    decreases t.len(),
{
    if t.len() == 0 {
        Ok(Seq::empty())
    } else {
        match (run_map(es, t.drop_last()), map_row(es, t.last())) {
            (Err(e), _) => Err(e),
            (Ok(_), Err(e)) => Err(e),
            (Ok(init), Ok(r)) => Ok(init.push(r)),
        }
    }
}

/// What a filter stage produces on a whole table: the records the predicate
/// keeps, in their input order, or the first failing record's error.
pub open spec fn run_filter(p: Pred, t: Seq<Seq<CellVal>>) -> Result<
    Seq<Seq<CellVal>>,
    EngineError,
>
    decreases t.len(),
{
    if t.len() == 0 {
        Ok(Seq::empty())
    } else {
        match (run_filter(p, t.drop_last()), eval_pred(p, t.last())) {
            (Err(e), _) => Err(e),
            (Ok(_), Err(e)) => Err(e),
            (Ok(init), Ok(keep)) => Ok(
                if keep {
                    init.push(t.last())
                } else {
                    init
                },
            ),
        }
    }
}

/// A record that fails to transform makes the whole map fail with its error,
/// provided every record before it transforms.
proof fn lemma_map_err_at(es: Seq<Expr>, t: Seq<Seq<CellVal>>, i: int, e: EngineError)
    requires
        0 <= i < t.len(),
        run_map(es, t.take(i)) is Ok,
        map_row(es, t[i]) == Err::<Seq<CellVal>, EngineError>(e),
    ensures
        run_map(es, t) == Err::<Seq<Seq<CellVal>>, EngineError>(e),
    decreases t.len(),
{
    if i == t.len() - 1 {
        assert(t.take(i) =~= t.drop_last());
    } else {
        assert(t.drop_last().take(i) =~= t.take(i));
        lemma_map_err_at(es, t.drop_last(), i, e);
    }
}

/// A record on which the predicate fails makes the whole filter fail with
/// its error, provided the predicate succeeds on every record before it.
proof fn lemma_filter_err_at(p: Pred, t: Seq<Seq<CellVal>>, i: int, e: EngineError)
    requires
        0 <= i < t.len(),
        run_filter(p, t.take(i)) is Ok,
        eval_pred(p, t[i]) == Err::<bool, EngineError>(e),
    ensures
        run_filter(p, t) == Err::<Seq<Seq<CellVal>>, EngineError>(e),
    decreases t.len(),
{
    if i == t.len() - 1 {
        assert(t.take(i) =~= t.drop_last());
    } else {
        assert(t.drop_last().take(i) =~= t.take(i));
        lemma_filter_err_at(p, t.drop_last(), i, e);
    }
}

/// An expression that fails on the record makes the whole output record
/// fail with its error, provided every expression before it succeeds.
proof fn lemma_map_row_err_at(es: Seq<Expr>, r: Seq<CellVal>, j: int, e: EngineError)
    requires
        0 <= j < es.len(),
        map_row(es.take(j), r) is Ok,
        eval_expr(es[j], r) == Err::<CellVal, EngineError>(e),
    ensures
        map_row(es, r) == Err::<Seq<CellVal>, EngineError>(e),
    decreases es.len(),
{
    if j == es.len() - 1 {
        assert(es.take(j) =~= es.drop_last());
    } else {
        assert(es.drop_last().take(j) =~= es.take(j));
        lemma_map_row_err_at(es.drop_last(), r, j, e);
    }
}

/// A transformed record has one field per map expression, each holding that
/// expression's value on the input record.
proof fn lemma_map_row_ok(es: Seq<Expr>, r: Seq<CellVal>, m: Seq<CellVal>)
    requires
        map_row(es, r) == Ok::<Seq<CellVal>, EngineError>(m),
    ensures
        m.len() == es.len(),
        forall|c: int|
            0 <= c < es.len() ==> eval_expr(es[c], r) == Ok::<CellVal, EngineError>(
                #[trigger] m[c],
            ),
    decreases es.len(),
{
    if es.len() > 0 {
        let front = es.drop_last();
        match map_row(front, r) {
            Ok(m0) => {
                lemma_map_row_ok(front, r, m0);
                assert(m == m0.push(m.last()));
                assert(forall|c: int| 0 <= c < front.len() ==> #[trigger] front[c] == es[c]);
                assert forall|c: int| 0 <= c < es.len() implies eval_expr(es[c], r) == Ok::<
                    CellVal,
                    EngineError,
                >(#[trigger] m[c]) by {
                    if c < es.len() - 1 {
                        assert(m[c] == m0[c]);
                    } else {
                        assert(m[c] == m.last());
                        assert(es[c] == es.last());
                    }
                }
            },
            Err(_) => {
                assert(false);
            },
        }
    }
}

/// The translated expression reads the input record exactly as the original
/// expression reads the transformed record.
proof fn lemma_subst_expr_eval(e: Expr, es: Seq<Expr>, out: Expr, r: Seq<CellVal>, m: Seq<CellVal>)
    requires
        crate::expr::is_subst_expr(e, es, out),
        map_row(es, r) == Ok::<Seq<CellVal>, EngineError>(m),
    ensures
        eval_expr(out, r) == eval_expr(e, m),
    decreases e,
{
    lemma_map_row_ok(es, r, m);
    match e {
        Expr::Col(_) => {},
        Expr::Lit(_) => {},
        Expr::Arith(_, a, b) => {
            match out {
                Expr::Arith(_, oa, ob) => {
                    lemma_subst_expr_eval(*a, es, *oa, r, m);
                    lemma_subst_expr_eval(*b, es, *ob, r, m);
                },
                _ => {},
            }
        },
    }
}

/// The translated predicate decides on the input record exactly as the
/// original predicate decides on the transformed record.
proof fn lemma_subst_pred_eval(p: Pred, es: Seq<Expr>, out: Pred, r: Seq<CellVal>, m: Seq<CellVal>)
    requires
        crate::expr::is_subst_pred(p, es, out),
        map_row(es, r) == Ok::<Seq<CellVal>, EngineError>(m),
    ensures
        eval_pred(out, r) == eval_pred(p, m),
    decreases p,
{
    match p {
        Pred::Cmp(_, a, b) => {
            match out {
                Pred::Cmp(_, oa, ob) => {
                    lemma_subst_expr_eval(a, es, oa, r, m);
                    lemma_subst_expr_eval(b, es, ob, r, m);
                },
                _ => {},
            }
        },
        Pred::And(a, b) => {
            match out {
                Pred::And(oa, ob) => {
                    lemma_subst_pred_eval(*a, es, *oa, r, m);
                    lemma_subst_pred_eval(*b, es, *ob, r, m);
                },
                _ => {},
            }
        },
        Pred::Or(a, b) => {
            match out {
                Pred::Or(oa, ob) => {
                    lemma_subst_pred_eval(*a, es, *oa, r, m);
                    lemma_subst_pred_eval(*b, es, *ob, r, m);
                },
                _ => {},
            }
        },
        Pred::Not(a) => {
            match out {
                Pred::Not(oa) => {
                    lemma_subst_pred_eval(*a, es, *oa, r, m);
                },
                _ => {},
            }
        },
    }
}

/// A map that succeeds on a table transforms record `i` into output `i`.
proof fn lemma_run_map_ok(es: Seq<Expr>, t: Seq<Seq<CellVal>>, m: Seq<Seq<CellVal>>)
    requires
        run_map(es, t) == Ok::<Seq<Seq<CellVal>>, EngineError>(m),
    ensures
        m.len() == t.len(),
        forall|i: int|
            0 <= i < t.len() ==> map_row(es, #[trigger] t[i]) == Ok::<Seq<CellVal>, EngineError>(
                m[i],
            ),
    decreases t.len(),
{
    if t.len() > 0 {
        let front = t.drop_last();
        match run_map(es, front) {
            Ok(m0) => {
                lemma_run_map_ok(es, front, m0);
                assert(m == m0.push(m.last()));
                assert(forall|i: int| 0 <= i < front.len() ==> #[trigger] front[i] == t[i]);
                assert forall|i: int| 0 <= i < t.len() implies map_row(es, #[trigger] t[i]) == Ok::<
                    Seq<CellVal>,
                    EngineError,
                >(m[i]) by {
                    if i < t.len() - 1 {
                        assert(front[i] == t[i]);
                        assert(map_row(es, front[i]) == Ok::<Seq<CellVal>, EngineError>(m0[i]));
                        assert(m[i] == m0[i]);
                    } else {
                        assert(m[i] == m.last());
                        assert(t[i] == t.last());
                    }
                }
            },
            Err(_) => {
                assert(false);
            },
        }
    }
}

/// Every record a filter keeps is a record of its input.
proof fn lemma_run_filter_member(q: Pred, t: Seq<Seq<CellVal>>, kept: Seq<Seq<CellVal>>)
    requires
        run_filter(q, t) == Ok::<Seq<Seq<CellVal>>, EngineError>(kept),
    ensures
        forall|k: int| 0 <= k < kept.len() ==> exists|i: int| 0 <= i < t.len() && #[trigger] kept[k] == t[i],
    decreases t.len(),
{
    if t.len() > 0 {
        let front = t.drop_last();
        match run_filter(q, front) {
            Ok(k0) => {
                lemma_run_filter_member(q, front, k0);
                assert(forall|i: int| 0 <= i < front.len() ==> #[trigger] front[i] == t[i]);
                assert(t.last() == t[t.len() - 1]);
                assert forall|k: int| 0 <= k < kept.len() implies exists|i: int|
                    0 <= i < t.len() && #[trigger] kept[k] == t[i] by {
                    if k < k0.len() {
                        assert(kept[k] == k0[k]);
                        let i = choose|i: int| 0 <= i < front.len() && #[trigger] k0[k] == front[i];
                        assert(kept[k] == t[i]);
                    } else {
                        assert(kept[k] == t[t.len() - 1]);
                    }
                }
            },
            Err(_) => {
                assert(false);
            },
        }
    }
}

/// A map succeeds on any table all of whose records it transforms.
proof fn lemma_run_map_all_ok(es: Seq<Expr>, t: Seq<Seq<CellVal>>)
    requires
        forall|i: int| 0 <= i < t.len() ==> map_row(es, #[trigger] t[i]) is Ok,
    ensures
        run_map(es, t) is Ok,
    decreases t.len(),
{
    if t.len() > 0 {
        let front = t.drop_last();
        assert(forall|i: int| 0 <= i < front.len() ==> #[trigger] front[i] == t[i]);
        lemma_run_map_all_ok(es, front);
        assert(t.last() == t[t.len() - 1]);
    }
}

/// Functor law for the stateless stages: when a map succeeds on a table,
/// filtering its output on a predicate equals translating the predicate
/// through the map's expressions, filtering the input first, and mapping
/// only the kept records.
pub proof fn lemma_filter_map_commutes(
    es: Seq<Expr>,
    p: Pred,
    q: Pred,
    t: Seq<Seq<CellVal>>,
    m: Seq<Seq<CellVal>>,
)
    requires
        crate::expr::is_subst_pred(p, es, q),
        run_map(es, t) == Ok::<Seq<Seq<CellVal>>, EngineError>(m),
    ensures
        run_filter(p, m) == (match run_filter(q, t) {
            Ok(kept) => run_map(es, kept),
            Err(e) => Err(e),
        }),
    decreases t.len(),
{
    if t.len() == 0 {
        assert(m.len() == 0);
        assert(m =~= Seq::<Seq<CellVal>>::empty());
        assert(t =~= Seq::<Seq<CellVal>>::empty());
    } else {
        let t0 = t.drop_last();
        let m0 = match run_map(es, t0) {
            Ok(m0) => m0,
            Err(_) => Seq::empty(),
        };
        assert(run_map(es, t0) == Ok::<Seq<Seq<CellVal>>, EngineError>(m0));
        let mlast = match map_row(es, t.last()) {
            Ok(ml) => ml,
            Err(_) => Seq::empty(),
        };
        assert(map_row(es, t.last()) == Ok::<Seq<CellVal>, EngineError>(mlast));
        assert(m == m0.push(mlast));
        assert(m.drop_last() =~= m0);
        assert(m.last() == mlast);
        lemma_filter_map_commutes(es, p, q, t0, m0);
        lemma_subst_pred_eval(p, es, q, t.last(), mlast);
        match run_filter(q, t0) {
            Err(_) => {},
            Ok(kept0) => {
                lemma_run_map_ok(es, t0, m0);
                lemma_run_filter_member(q, t0, kept0);
                assert forall|k: int| 0 <= k < kept0.len() implies map_row(
                    es,
                    #[trigger] kept0[k],
                ) is Ok by {
                    let i = choose|i: int| 0 <= i < t0.len() && #[trigger] kept0[k] == t0[i];
                    assert(map_row(es, t0[i]) is Ok);
                }
                lemma_run_map_all_ok(es, kept0);
                match eval_pred(q, t.last()) {
                    Err(_) => {},
                    Ok(keep) => {
                        if keep {
                            let kept = kept0.push(t.last());
                            assert(run_filter(q, t) == Ok::<Seq<Seq<CellVal>>, EngineError>(kept));
                            assert(kept.drop_last() =~= kept0);
                            assert(kept.last() == t.last());
                        }
                    },
                }
            },
        }
    }
}

/// Transforms one record: one evaluated expression per output column.
pub fn map_row_exec(es: &Vec<Expr>, r: &Row) -> (res: Result<Row, EngineError>)
    ensures
        match res {
            Ok(out) => map_row(es@, r@) == Ok::<Seq<CellVal>, EngineError>(out@),
            Err(e) => map_row(es@, r@) == Err::<Seq<CellVal>, EngineError>(e),
        },
{
    let mut cells: Vec<crate::cell::Cell> = Vec::new();
    let mut j: usize = 0;
    proof {
        assert(es@.take(0) =~= Seq::<Expr>::empty());
        assert(cells_view(cells@) =~= Seq::<CellVal>::empty());
    }
    while j < es.len()
        invariant
            j <= es.len(),
            map_row(es@.take(j as int), r@) == Ok::<Seq<CellVal>, EngineError>(cells_view(cells@)),
        decreases es.len() - j,
    {
        let ghost prefix = es@.take(j as int);
        match eval_expr_exec(&es[j], r) {
            Ok(v) => {
                let ghost vv = v@;
                let ghost prev = cells@;
                cells.push(v);
                proof {
                    let next = es@.take(j as int + 1);
                    assert(next.drop_last() =~= prefix);
                    assert(next.last() == es@[j as int]);
                    assert(cells_view(cells@) =~= cells_view(prev).push(vv));
                    assert(map_row(next, r@) == Ok::<Seq<CellVal>, EngineError>(
                        cells_view(cells@),
                    ));
                }
            },
            Err(e) => {
                proof {
                    lemma_map_row_err_at(es@, r@, j as int, e);
                }
                return Err(e);
            },
        }
        j = j + 1;
    }
    proof {
        assert(es@.take(es@.len() as int) =~= es@);
    }
    Ok(Row { cells })
}

/// The map operator: a pure per-record transform with no shared state.
/// Produces exactly one output record per input record, in input order.
pub fn map_table(es: &Vec<Expr>, rows: &Vec<Row>) -> (res: Result<Vec<Row>, EngineError>)
    ensures
        match res {
            Ok(out) => run_map(es@, rows_view(rows@)) == Ok::<Seq<Seq<CellVal>>, EngineError>(
                rows_view(out@),
            ) && out@.len() == rows@.len(),
            Err(e) => run_map(es@, rows_view(rows@)) == Err::<Seq<Seq<CellVal>>, EngineError>(e),
        },
{
    let ghost t = rows_view(rows@);
    let mut out: Vec<Row> = Vec::new();
    let mut i: usize = 0;
    proof {
        assert(t.take(0) =~= Seq::<Seq<CellVal>>::empty());
        assert(rows_view(out@) =~= Seq::<Seq<CellVal>>::empty());
    }
    while i < rows.len()
        invariant
            i <= rows.len(),
            out@.len() == i,
            t == rows_view(rows@),
            run_map(es@, t.take(i as int)) == Ok::<Seq<Seq<CellVal>>, EngineError>(
                rows_view(out@),
            ),
        decreases rows.len() - i,
    {
        let ghost prefix = t.take(i as int);
        match map_row_exec(es, &rows[i]) {
            Ok(r) => {
                let ghost rv = r@;
                let ghost prev = out@;
                out.push(r);
                proof {
                    let next = t.take(i as int + 1);
                    assert(next.drop_last() =~= prefix);
                    assert(next.last() == t[i as int]);
                    assert(t[i as int] == rows@[i as int]@);
                    assert(rows_view(out@) =~= rows_view(prev).push(rv));
                    assert(run_map(es@, next) == Ok::<Seq<Seq<CellVal>>, EngineError>(
                        rows_view(out@),
                    ));
                }
            },
            Err(e) => {
                proof {
                    assert(t[i as int] == rows@[i as int]@);
                    lemma_map_err_at(es@, t, i as int, e);
                }
                return Err(e);
            },
        }
        i = i + 1;
    }
    proof {
        assert(t.take(t.len() as int) =~= t);
    }
    Ok(out)
}

/// The filter operator: keeps exactly the records on which the predicate
/// holds, in input order.
pub fn filter_table(p: &Pred, rows: &Vec<Row>) -> (res: Result<Vec<Row>, EngineError>)
    ensures
        match res {
            Ok(out) => run_filter(*p, rows_view(rows@)) == Ok::<Seq<Seq<CellVal>>, EngineError>(
                rows_view(out@),
            ),
            Err(e) => run_filter(*p, rows_view(rows@)) == Err::<Seq<Seq<CellVal>>, EngineError>(e),
        },
{
    let ghost t = rows_view(rows@);
    let mut out: Vec<Row> = Vec::new();
    let mut i: usize = 0;
    proof {
        assert(t.take(0) =~= Seq::<Seq<CellVal>>::empty());
        assert(rows_view(out@) =~= Seq::<Seq<CellVal>>::empty());
    }
    while i < rows.len()
        invariant
            i <= rows.len(),
            t == rows_view(rows@),
            run_filter(*p, t.take(i as int)) == Ok::<Seq<Seq<CellVal>>, EngineError>(
                rows_view(out@),
            ),
        decreases rows.len() - i,
    {
        let ghost prefix = t.take(i as int);
        match eval_pred_exec(p, &rows[i]) {
            Ok(keep) => {
                proof {
                    let next = t.take(i as int + 1);
                    assert(next.drop_last() =~= prefix);
                    assert(next.last() == t[i as int]);
                    assert(t[i as int] == rows@[i as int]@);
                }
                if keep {
                    let r = rows[i].dup();
                    let ghost rv = r@;
                    let ghost prev = out@;
                    out.push(r);
                    proof {
                        assert(rv == t[i as int]);
                        assert(rows_view(out@) =~= rows_view(prev).push(rv));
                        assert(run_filter(*p, t.take(i as int + 1))
                            == Ok::<Seq<Seq<CellVal>>, EngineError>(rows_view(out@)));
                    }
                }
            },
            Err(e) => {
                proof {
                    assert(t[i as int] == rows@[i as int]@);
                    lemma_filter_err_at(*p, t, i as int, e);
                }
                return Err(e);
            },
        }
        i = i + 1;
    }
    proof {
        assert(t.take(t.len() as int) =~= t);
    }
    Ok(out)
}

} // verus!
