use vstd::prelude::*;

use crate::cell::{Cell, CellVal, Row, cells_view, rows_view, spec_key_of, key_in_bounds,
    keys_match, key_of, keys_match_exec};
use crate::error::EngineError;

verus! {

/// A row of missing values standing for an absent join side.
pub open spec fn null_row(n: nat) -> Seq<CellVal> {
    Seq::new(n, |i: int| CellVal::Null)
}

/// Whether every record of a table has its key columns in bounds, so a key
/// can be extracted from it.
pub open spec fn join_keys_ok(t: Seq<Seq<CellVal>>, kc: Seq<usize>) -> bool {
    forall|i: int| 0 <= i < t.len() ==> key_in_bounds(#[trigger] t[i], kc)
}

/// The matched outputs of one left record: for every right record whose key
/// matches, the left record widened by that right record, in right order.
/// A key holding a missing value matches nothing.
pub open spec fn row_matches(
    l: Seq<CellVal>,
    rt: Seq<Seq<CellVal>>,
    lk: Seq<usize>,
    rk: Seq<usize>,
) -> Seq<Seq<CellVal>>
    decreases rt.len(),
{
    if rt.len() == 0 {
        Seq::empty()
    } else {
        let init = row_matches(l, rt.drop_last(), lk, rk);
        if keys_match(spec_key_of(l, lk), spec_key_of(rt.last(), rk)) {
            init.push(l + rt.last())
        } else {
            init
        }
    }
}

/// The inner join's records: every matching (left, right) pair, grouped by
/// left record in left order, each group in right order.
pub open spec fn inner_rows(
    lt: Seq<Seq<CellVal>>,
    rt: Seq<Seq<CellVal>>,
    lk: Seq<usize>,
    rk: Seq<usize>,
) -> Seq<Seq<CellVal>>
    decreases lt.len(),
{
    if lt.len() == 0 {
        Seq::empty()
    } else {
        inner_rows(lt.drop_last(), rt, lk, rk) + row_matches(lt.last(), rt, lk, rk)
    }
}

/// What one left record contributes to a left join: its matches, or, when
/// none exists, exactly one record with the right side entirely missing.
pub open spec fn left_block(
    l: Seq<CellVal>,
    rt: Seq<Seq<CellVal>>,
    lk: Seq<usize>,
    rk: Seq<usize>,
    rw: nat,
) -> Seq<Seq<CellVal>> {
    let m = row_matches(l, rt, lk, rk);
    if m.len() == 0 {
        seq![l + null_row(rw)]
    } else {
        m
    }
}

/// The left join's records: one block per left record, in left order.
pub open spec fn left_rows(
    lt: Seq<Seq<CellVal>>,
    rt: Seq<Seq<CellVal>>,
    lk: Seq<usize>,
    rk: Seq<usize>,
    rw: nat,
) -> Seq<Seq<CellVal>>
    decreases lt.len(),
{
    if lt.len() == 0 {
        Seq::empty()
    } else {
        left_rows(lt.drop_last(), rt, lk, rk, rw) + left_block(lt.last(), rt, lk, rk, rw)
    }
}

/// Whether some record of the left table matches this key.
pub open spec fn left_has_key(k: Seq<CellVal>, lt: Seq<Seq<CellVal>>, lk: Seq<usize>) -> bool {
    exists|i: int| 0 <= i < lt.len() && keys_match(spec_key_of(#[trigger] lt[i], lk), k)
}

/// The right records no left record matches, each with the left side
/// entirely missing, in right order.
pub open spec fn right_unmatched_rows(
    lt: Seq<Seq<CellVal>>,
    rt: Seq<Seq<CellVal>>,
    lk: Seq<usize>,
    rk: Seq<usize>,
    lw: nat,
) -> Seq<Seq<CellVal>>
    decreases rt.len(),
{
    if rt.len() == 0 {
        Seq::empty()
    } else {
        let init = right_unmatched_rows(lt, rt.drop_last(), lk, rk, lw);
        if left_has_key(spec_key_of(rt.last(), rk), lt, lk) {
            init
        } else {
            init.push(null_row(lw) + rt.last())
        }
    }
}

/// The inner equi-join: key extraction must succeed on every record of both
/// sides; non-matching records of either side are dropped.
pub open spec fn run_inner_join(
    lt: Seq<Seq<CellVal>>,
    rt: Seq<Seq<CellVal>>,
    lk: Seq<usize>,
    rk: Seq<usize>,
) -> Result<Seq<Seq<CellVal>>, EngineError> {
    if !join_keys_ok(lt, lk) || !join_keys_ok(rt, rk) {
        Err(EngineError::JoinKey)
    } else {
        Ok(inner_rows(lt, rt, lk, rk))
    }
}

/// The left outer equi-join: one block per left record; an unmatched left
/// record appears exactly once, with `rw` missing right fields.
pub open spec fn run_left_join(
    lt: Seq<Seq<CellVal>>,
    rt: Seq<Seq<CellVal>>,
    lk: Seq<usize>,
    rk: Seq<usize>,
    rw: nat,
) -> Result<Seq<Seq<CellVal>>, EngineError> {
    if !join_keys_ok(lt, lk) || !join_keys_ok(rt, rk) {
        Err(EngineError::JoinKey)
    } else {
        Ok(left_rows(lt, rt, lk, rk, rw))
    }
}

/// The full outer equi-join: the left join's records, then every right
/// record no left record matches, with `lw` missing left fields.
pub open spec fn run_outer_join(
    lt: Seq<Seq<CellVal>>,
    rt: Seq<Seq<CellVal>>,
    lk: Seq<usize>,
    rk: Seq<usize>,
    lw: nat,
    rw: nat,
) -> Result<Seq<Seq<CellVal>>, EngineError> {
    if !join_keys_ok(lt, lk) || !join_keys_ok(rt, rk) {
        Err(EngineError::JoinKey)
    } else {
        Ok(left_rows(lt, rt, lk, rk, rw) + right_unmatched_rows(lt, rt, lk, rk, lw))
    }
}

/// Whether some right record's key matches this left record's key.
pub open spec fn has_match(
    l: Seq<CellVal>,
    rt: Seq<Seq<CellVal>>,
    lk: Seq<usize>,
    rk: Seq<usize>,
) -> bool {
    exists|j: int|
        0 <= j < rt.len() && keys_match(spec_key_of(l, lk), spec_key_of(#[trigger] rt[j], rk))
}

/// Whether no two records of a table carry matching keys.
pub open spec fn unique_keys(t: Seq<Seq<CellVal>>, kc: Seq<usize>) -> bool {
    forall|i: int, j: int|
        0 <= i < j < t.len() ==> !keys_match(
            spec_key_of(#[trigger] t[i], kc),
            spec_key_of(#[trigger] t[j], kc),
        )
}

/// How many left records have at least one right match.
pub open spec fn matched_count(
    lt: Seq<Seq<CellVal>>,
    rt: Seq<Seq<CellVal>>,
    lk: Seq<usize>,
    rk: Seq<usize>,
) -> int
    decreases lt.len(),
{
    if lt.len() == 0 {
        0
    } else {
        matched_count(lt.drop_last(), rt, lk, rk) + if has_match(lt.last(), rt, lk, rk) {
            1int
        } else {
            0int
        }
    }
}

/// One left record gathers at most one output per right record.
proof fn lemma_row_matches_bound(l: Seq<CellVal>, rt: Seq<Seq<CellVal>>, lk: Seq<usize>, rk: Seq<usize>)
    ensures
        row_matches(l, rt, lk, rk).len() <= rt.len(),
    decreases rt.len(),
{
    if rt.len() > 0 {
        lemma_row_matches_bound(l, rt.drop_last(), lk, rk);
    }
}

/// The inner join emits at most one record per (left, right) pair, and a
/// pair is matched only where the two keys are equal and free of missing
/// values.
pub proof fn lemma_inner_join_bound(
    lt: Seq<Seq<CellVal>>,
    rt: Seq<Seq<CellVal>>,
    lk: Seq<usize>,
    rk: Seq<usize>,
)
    ensures
        inner_rows(lt, rt, lk, rk).len() <= lt.len() * rt.len(),
    decreases lt.len(),
{
    if lt.len() > 0 {
        lemma_inner_join_bound(lt.drop_last(), rt, lk, rk);
        lemma_row_matches_bound(lt.last(), rt, lk, rk);
        assert((lt.len() - 1) * rt.len() + rt.len() == lt.len() * rt.len()) by (nonlinear_arith);
    }
}

/// Every output of one left record pairs it with a right record whose key
/// matches.
proof fn lemma_row_matches_sound(
    l: Seq<CellVal>,
    rt: Seq<Seq<CellVal>>,
    lk: Seq<usize>,
    rk: Seq<usize>,
    p: int,
)
    requires
        0 <= p < row_matches(l, rt, lk, rk).len(),
    ensures
        exists|j: int|
            0 <= j < rt.len() && keys_match(spec_key_of(l, lk), spec_key_of(#[trigger] rt[j], rk))
                && row_matches(l, rt, lk, rk)[p] == l + rt[j],
    decreases rt.len(),
{
    if rt.len() > 0 {
        let front = rt.drop_last();
        let init = row_matches(l, front, lk, rk);
        assert(forall|j: int| 0 <= j < front.len() ==> #[trigger] front[j] == rt[j]);
        if p < init.len() {
            lemma_row_matches_sound(l, front, lk, rk, p);
            let j = choose|j: int|
                0 <= j < front.len() && keys_match(
                    spec_key_of(l, lk),
                    spec_key_of(#[trigger] front[j], rk),
                ) && init[p] == l + front[j];
            assert(keys_match(spec_key_of(l, lk), spec_key_of(rt[j], rk)));
            assert(row_matches(l, rt, lk, rk)[p] == l + rt[j]);
        } else {
            assert(rt.last() == rt[rt.len() - 1]);
            assert(row_matches(l, rt, lk, rk)[p] == l + rt[rt.len() - 1]);
        }
    }
}

/// Soundness of the inner join: every output record pairs some left record
/// with some right record whose keys are equal and free of missing values;
/// nothing else is emitted.
pub proof fn lemma_inner_join_sound(
    lt: Seq<Seq<CellVal>>,
    rt: Seq<Seq<CellVal>>,
    lk: Seq<usize>,
    rk: Seq<usize>,
    k: int,
)
    requires
        0 <= k < inner_rows(lt, rt, lk, rk).len(),
    ensures
        exists|i: int, j: int|
            0 <= i < lt.len() && 0 <= j < rt.len() && keys_match(
                spec_key_of(#[trigger] lt[i], lk),
                spec_key_of(#[trigger] rt[j], rk),
            ) && inner_rows(lt, rt, lk, rk)[k] == lt[i] + rt[j],
    decreases lt.len(),
{
    if lt.len() > 0 {
        let front = lt.drop_last();
        let init = inner_rows(front, rt, lk, rk);
        assert(forall|i: int| 0 <= i < front.len() ==> #[trigger] front[i] == lt[i]);
        if k < init.len() {
            lemma_inner_join_sound(front, rt, lk, rk, k);
            let (i, j) = choose|i: int, j: int|
                0 <= i < front.len() && 0 <= j < rt.len() && keys_match(
                    spec_key_of(#[trigger] front[i], lk),
                    spec_key_of(#[trigger] rt[j], rk),
                ) && init[k] == front[i] + rt[j];
            assert(inner_rows(lt, rt, lk, rk)[k] == lt[i] + rt[j]);
            assert(keys_match(spec_key_of(lt[i], lk), spec_key_of(rt[j], rk)));
        } else {
            let p = k - init.len();
            lemma_row_matches_sound(lt.last(), rt, lk, rk, p);
            let i = lt.len() - 1;
            assert(lt.last() == lt[i]);
            let j = choose|j: int|
                0 <= j < rt.len() && keys_match(
                    spec_key_of(lt[i], lk),
                    spec_key_of(#[trigger] rt[j], rk),
                ) && row_matches(lt[i], rt, lk, rk)[p] == lt[i] + rt[j];
            assert(inner_rows(lt, rt, lk, rk)[k] == lt[i] + rt[j]);
        }
    }
}

/// The left join emits at least one record per left record.
pub proof fn lemma_left_join_len(
    lt: Seq<Seq<CellVal>>,
    rt: Seq<Seq<CellVal>>,
    lk: Seq<usize>,
    rk: Seq<usize>,
    rw: nat,
)
    ensures
        left_rows(lt, rt, lk, rk, rw).len() >= lt.len(),
    decreases lt.len(),
{
    if lt.len() > 0 {
        lemma_left_join_len(lt.drop_last(), rt, lk, rk, rw);
    }
}

/// A left record has no output exactly when no right record matches it.
proof fn lemma_row_matches_empty(
    l: Seq<CellVal>,
    rt: Seq<Seq<CellVal>>,
    lk: Seq<usize>,
    rk: Seq<usize>,
)
    ensures
        (row_matches(l, rt, lk, rk).len() == 0) == !has_match(l, rt, lk, rk),
    decreases rt.len(),
{
    if rt.len() > 0 {
        let front = rt.drop_last();
        lemma_row_matches_empty(l, front, lk, rk);
        assert(forall|j: int| 0 <= j < front.len() ==> #[trigger] front[j] == rt[j]);
        assert(rt.last() == rt[rt.len() - 1]);
        if keys_match(spec_key_of(l, lk), spec_key_of(rt.last(), rk)) {
            assert(has_match(l, rt, lk, rk));
        } else {
            if has_match(l, rt, lk, rk) {
                let j = choose|j: int|
                    0 <= j < rt.len() && keys_match(
                        spec_key_of(l, lk),
                        spec_key_of(#[trigger] rt[j], rk),
                    );
                assert(j < front.len());
                assert(front[j] == rt[j]);
                assert(keys_match(spec_key_of(l, lk), spec_key_of(front[j], rk)));
                assert(has_match(l, front, lk, rk));
            }
        }
    }
}

/// With pairwise-distinct keys, one left record matches at most one right
/// record: exactly one when its key is present on the right, none otherwise.
proof fn lemma_row_matches_unique(
    l: Seq<CellVal>,
    rt: Seq<Seq<CellVal>>,
    lk: Seq<usize>,
    rk: Seq<usize>,
)
    requires
        unique_keys(rt, rk),
    ensures
        row_matches(l, rt, lk, rk).len() == if has_match(l, rt, lk, rk) {
            1int
        } else {
            0int
        },
    decreases rt.len(),
{
    lemma_row_matches_empty(l, rt, lk, rk);
    if rt.len() > 0 {
        let front = rt.drop_last();
        assert(forall|j: int| 0 <= j < front.len() ==> #[trigger] front[j] == rt[j]);
        assert(rt.last() == rt[rt.len() - 1]);
        assert(unique_keys(front, rk));
        lemma_row_matches_unique(l, front, lk, rk);
        lemma_row_matches_empty(l, front, lk, rk);
        if keys_match(spec_key_of(l, lk), spec_key_of(rt.last(), rk)) {
            if has_match(l, front, lk, rk) {
                let j = choose|j: int|
                    0 <= j < front.len() && keys_match(
                        spec_key_of(l, lk),
                        spec_key_of(#[trigger] front[j], rk),
                    );
                assert(keys_match(spec_key_of(rt[j], rk), spec_key_of(rt[rt.len() - 1], rk)));
                assert(false);
            }
        } else {
            if has_match(l, rt, lk, rk) {
                let j = choose|j: int|
                    0 <= j < rt.len() && keys_match(
                        spec_key_of(l, lk),
                        spec_key_of(#[trigger] rt[j], rk),
                    );
                assert(j < front.len());
                assert(has_match(l, front, lk, rk));
            }
        }
    }
}

/// With pairwise-distinct, missing-free keys on both sides, the inner join
/// emits exactly one record per left record whose key is present on the
/// right — that is, one per key present on both sides.
pub proof fn lemma_inner_join_unique_count(
    lt: Seq<Seq<CellVal>>,
    rt: Seq<Seq<CellVal>>,
    lk: Seq<usize>,
    rk: Seq<usize>,
)
    requires
        unique_keys(rt, rk),
    ensures
        inner_rows(lt, rt, lk, rk).len() == matched_count(lt, rt, lk, rk),
    decreases lt.len(),
{
    if lt.len() > 0 {
        lemma_inner_join_unique_count(lt.drop_last(), rt, lk, rk);
        lemma_row_matches_unique(lt.last(), rt, lk, rk);
    }
}

/// Every matched output of one left record starts with that record.
proof fn lemma_row_matches_prefix(
    l: Seq<CellVal>,
    rt: Seq<Seq<CellVal>>,
    lk: Seq<usize>,
    rk: Seq<usize>,
    p: int,
)
    requires
        0 <= p < row_matches(l, rt, lk, rk).len(),
    ensures
        row_matches(l, rt, lk, rk)[p].subrange(0, l.len() as int) == l,
    decreases rt.len(),
{
    if rt.len() > 0 {
        let init = row_matches(l, rt.drop_last(), lk, rk);
        if p < init.len() {
            lemma_row_matches_prefix(l, rt.drop_last(), lk, rk, p);
        } else {
            assert((l + rt.last()).subrange(0, l.len() as int) =~= l);
        }
    }
}

/// Every record of one left record's block stands in the left join's output.
proof fn lemma_left_rows_structure(
    lt: Seq<Seq<CellVal>>,
    rt: Seq<Seq<CellVal>>,
    lk: Seq<usize>,
    rk: Seq<usize>,
    rw: nat,
    i: int,
    p: int,
)
    requires
        0 <= i < lt.len(),
        0 <= p < left_block(lt[i], rt, lk, rk, rw).len(),
    ensures
        exists|k: int|
            0 <= k < left_rows(lt, rt, lk, rk, rw).len() && #[trigger] left_rows(
                lt,
                rt,
                lk,
                rk,
                rw,
            )[k] == left_block(lt[i], rt, lk, rk, rw)[p],
    decreases lt.len(),
{
    let out = left_rows(lt, rt, lk, rk, rw);
    let prev = left_rows(lt.drop_last(), rt, lk, rk, rw);
    if i == lt.len() - 1 {
        assert(lt.last() == lt[i]);
        assert(out[prev.len() + p] == left_block(lt[i], rt, lk, rk, rw)[p]);
    } else {
        assert(lt.drop_last()[i] == lt[i]);
        lemma_left_rows_structure(lt.drop_last(), rt, lk, rk, rw, i, p);
        let k = choose|k: int|
            0 <= k < prev.len() && #[trigger] prev[k] == left_block(lt[i], rt, lk, rk, rw)[p];
        assert(out[k] == left_block(lt[i], rt, lk, rk, rw)[p]);
    }
}

/// Every left record appears in the left join at least once, and a left
/// record no right record matches appears exactly once: its block is the
/// single record padded with `rw` missing right fields.
pub proof fn lemma_left_join_covers(
    lt: Seq<Seq<CellVal>>,
    rt: Seq<Seq<CellVal>>,
    lk: Seq<usize>,
    rk: Seq<usize>,
    rw: nat,
    i: int,
)
    requires
        0 <= i < lt.len(),
    ensures
        exists|k: int|
            0 <= k < left_rows(lt, rt, lk, rk, rw).len() && #[trigger] left_rows(
                lt,
                rt,
                lk,
                rk,
                rw,
            )[k].subrange(0, lt[i].len() as int) == lt[i],
        !has_match(lt[i], rt, lk, rk) ==> left_block(lt[i], rt, lk, rk, rw) == seq![
            lt[i] + null_row(rw),
        ] && exists|k: int|
            0 <= k < left_rows(lt, rt, lk, rk, rw).len() && #[trigger] left_rows(
                lt,
                rt,
                lk,
                rk,
                rw,
            )[k] == lt[i] + null_row(rw),
{
    let out = left_rows(lt, rt, lk, rk, rw);
    let block = left_block(lt[i], rt, lk, rk, rw);
    lemma_row_matches_empty(lt[i], rt, lk, rk);
    lemma_left_rows_structure(lt, rt, lk, rk, rw, i, 0);
    let k = choose|k: int| 0 <= k < out.len() && #[trigger] out[k] == block[0];
    if row_matches(lt[i], rt, lk, rk).len() == 0 {
        assert(block[0] == lt[i] + null_row(rw));
        assert((lt[i] + null_row(rw)).subrange(0, lt[i].len() as int) =~= lt[i]);
        assert(out[k].subrange(0, lt[i].len() as int) == lt[i]);
    } else {
        lemma_row_matches_prefix(lt[i], rt, lk, rk, 0);
        assert(out[k].subrange(0, lt[i].len() as int) == lt[i]);
    }
}

/// A matching (left, right) pair stands among the left record's outputs.
proof fn lemma_row_matches_contains(
    l: Seq<CellVal>,
    rt: Seq<Seq<CellVal>>,
    lk: Seq<usize>,
    rk: Seq<usize>,
    j: int,
)
    requires
        0 <= j < rt.len(),
        keys_match(spec_key_of(l, lk), spec_key_of(rt[j], rk)),
    ensures
        exists|p: int|
            0 <= p < row_matches(l, rt, lk, rk).len() && #[trigger] row_matches(l, rt, lk, rk)[p]
                == l + rt[j],
    decreases rt.len(),
{
    let m = row_matches(l, rt, lk, rk);
    let init = row_matches(l, rt.drop_last(), lk, rk);
    if j == rt.len() - 1 {
        assert(rt.last() == rt[j]);
        assert(m[m.len() - 1] == l + rt[j]);
    } else {
        assert(rt.drop_last()[j] == rt[j]);
        lemma_row_matches_contains(l, rt.drop_last(), lk, rk, j);
        let p = choose|p: int| 0 <= p < init.len() && #[trigger] init[p] == l + rt.drop_last()[j];
        assert(m[p] == l + rt[j]);
    }
}

/// A right record no left record matches stands among the outer join's
/// trailing records, padded with `lw` missing left fields.
proof fn lemma_right_unmatched_contains(
    lt: Seq<Seq<CellVal>>,
    rt: Seq<Seq<CellVal>>,
    lk: Seq<usize>,
    rk: Seq<usize>,
    lw: nat,
    j: int,
)
    requires
        0 <= j < rt.len(),
        !left_has_key(spec_key_of(rt[j], rk), lt, lk),
    ensures
        exists|p: int|
            0 <= p < right_unmatched_rows(lt, rt, lk, rk, lw).len() && #[trigger]
            right_unmatched_rows(lt, rt, lk, rk, lw)[p] == null_row(lw) + rt[j],
    decreases rt.len(),
{
    let u = right_unmatched_rows(lt, rt, lk, rk, lw);
    let init = right_unmatched_rows(lt, rt.drop_last(), lk, rk, lw);
    if j == rt.len() - 1 {
        assert(rt.last() == rt[j]);
        assert(u[u.len() - 1] == null_row(lw) + rt[j]);
    } else {
        assert(rt.drop_last()[j] == rt[j]);
        lemma_right_unmatched_contains(lt, rt.drop_last(), lk, rk, lw, j);
        let p = choose|p: int|
            0 <= p < init.len() && #[trigger] init[p] == null_row(lw) + rt.drop_last()[j];
        assert(u[p] == null_row(lw) + rt[j]);
    }
}

/// Every right record appears in the full outer join at least once: paired
/// with a matching left record, or, when no left record matches it, exactly
/// once with `lw` missing left fields. Together with the left join's
/// coverage of every left record, every record of either side appears.
pub proof fn lemma_outer_join_covers_right(
    lt: Seq<Seq<CellVal>>,
    rt: Seq<Seq<CellVal>>,
    lk: Seq<usize>,
    rk: Seq<usize>,
    lw: nat,
    rw: nat,
    j: int,
)
    requires
        0 <= j < rt.len(),
    ensures
        ({
            let out = left_rows(lt, rt, lk, rk, rw) + right_unmatched_rows(lt, rt, lk, rk, lw);
            &&& exists|k: int|
                0 <= k < out.len() && #[trigger] out[k].subrange(
                    out[k].len() - rt[j].len(),
                    out[k].len() as int,
                ) == rt[j]
            &&& !left_has_key(spec_key_of(rt[j], rk), lt, lk) ==> exists|k: int|
                0 <= k < out.len() && #[trigger] out[k] == null_row(lw) + rt[j]
        }),
{
    let lrows = left_rows(lt, rt, lk, rk, rw);
    let urows = right_unmatched_rows(lt, rt, lk, rk, lw);
    let out = lrows + urows;
    if left_has_key(spec_key_of(rt[j], rk), lt, lk) {
        let i = choose|i: int|
            0 <= i < lt.len() && keys_match(
                spec_key_of(#[trigger] lt[i], lk),
                spec_key_of(rt[j], rk),
            );
        lemma_row_matches_contains(lt[i], rt, lk, rk, j);
        let m = row_matches(lt[i], rt, lk, rk);
        let p = choose|p: int| 0 <= p < m.len() && #[trigger] m[p] == lt[i] + rt[j];
        assert(left_block(lt[i], rt, lk, rk, rw) == m);
        lemma_left_rows_structure(lt, rt, lk, rk, rw, i, p);
        let k = choose|k: int|
            0 <= k < lrows.len() && #[trigger] lrows[k] == left_block(lt[i], rt, lk, rk, rw)[p];
        assert(out[k] == lt[i] + rt[j]);
        assert((lt[i] + rt[j]).subrange(
            (lt[i] + rt[j]).len() - rt[j].len(),
            (lt[i] + rt[j]).len() as int,
        ) =~= rt[j]);
    } else {
        lemma_right_unmatched_contains(lt, rt, lk, rk, lw, j);
        let p = choose|p: int| 0 <= p < urows.len() && #[trigger] urows[p] == null_row(lw) + rt[j];
        assert(out[lrows.len() + p] == null_row(lw) + rt[j]);
        assert((null_row(lw) + rt[j]).subrange(
            (null_row(lw) + rt[j]).len() - rt[j].len(),
            (null_row(lw) + rt[j]).len() as int,
        ) =~= rt[j]);
    }
}

/// Every left record appears in the full outer join at least once: the left
/// join's records open the output unchanged, so the left join's coverage
/// carries over.
pub proof fn lemma_outer_join_covers_left(
    lt: Seq<Seq<CellVal>>,
    rt: Seq<Seq<CellVal>>,
    lk: Seq<usize>,
    rk: Seq<usize>,
    lw: nat,
    rw: nat,
    i: int,
)
    requires
        0 <= i < lt.len(),
    ensures
        ({
            let out = left_rows(lt, rt, lk, rk, rw) + right_unmatched_rows(lt, rt, lk, rk, lw);
            exists|k: int|
                0 <= k < out.len() && #[trigger] out[k].subrange(0, lt[i].len() as int) == lt[i]
        }),
{
    let lrows = left_rows(lt, rt, lk, rk, rw);
    let out = lrows + right_unmatched_rows(lt, rt, lk, rk, lw);
    lemma_left_join_covers(lt, rt, lk, rk, rw, i);
    let k = choose|k: int|
        0 <= k < lrows.len() && #[trigger] lrows[k].subrange(0, lt[i].len() as int) == lt[i];
    assert(out[k] == lrows[k]);
}

/// The widened record of a join match: left fields, then right fields.
pub fn concat_rows(a: &Row, b: &Row) -> (r: Row)
    ensures
        r@ == a@ + b@,
{
    let mut r = a.dup();
    let mut j: usize = 0;
    while j < b.cells.len()
        invariant
            j <= b.cells.len(),
            r@ == a@ + cells_view(b.cells@.take(j as int)),
        decreases b.cells.len() - j,
    {
        let ghost prev = r@;
        r.cells.push(b.cells[j].dup());
        proof {
            assert(r@ =~= prev.push(b.cells@[j as int]@));
            assert(r@ =~= a@ + cells_view(b.cells@.take(j as int + 1)));
        }
        j = j + 1;
    }
    proof {
        assert(cells_view(b.cells@.take(b.cells@.len() as int)) =~= b@);
        assert(r@ =~= a@ + b@);
    }
    r
}

/// A record of `n` missing values.
pub fn make_null_row(n: usize) -> (r: Row)
    ensures
        r@ == null_row(n as nat),
{
    let mut cells: Vec<Cell> = Vec::new();
    let mut j: usize = 0;
    while j < n
        invariant
            j <= n,
            cells_view(cells@) =~= null_row(j as nat),
        decreases n - j,
    {
        let ghost prev = cells@;
        cells.push(Cell::Null);
        proof {
            assert(cells@ == prev.push(Cell::Null));
            assert(cells_view(prev).len() == prev.len());
            assert(prev.len() == j as int);
            assert forall|m: int| 0 <= m < cells@.len() implies cells_view(cells@)[m]
                == CellVal::Null by {
                if m < j {
                    assert(cells_view(prev)[m] == null_row(j as nat)[m]);
                    assert(cells@[m] == prev[m]);
                } else {
                    assert(cells@[m] == Cell::Null);
                }
            }
            assert(cells_view(cells@) =~= null_row(j as nat + 1));
        }
        j = j + 1;
    }
    proof {
        assert(cells_view(cells@) =~= null_row(n as nat));
    }
    Row { cells }
}

/// Whether a key can be extracted from every record of the table.
fn check_keys(t: &Vec<Row>, kc: &Vec<usize>) -> (ok: bool)
    ensures
        ok == join_keys_ok(rows_view(t@), kc@),
{
    let ghost tv = rows_view(t@);
    let mut i: usize = 0;
    while i < t.len()
        invariant
            i <= t.len(),
            tv == rows_view(t@),
            forall|j: int| 0 <= j < i ==> key_in_bounds(#[trigger] tv[j], kc@),
        decreases t.len() - i,
    {
        proof {
            assert(tv[i as int] == t@[i as int]@);
        }
        match key_of(&t[i], kc) {
            Some(_) => {},
            None => {
                return false;
            },
        }
        i = i + 1;
    }
    true
}

/// The inner equi-join operator: emits one record per matching (left, right)
/// pair, the left record's fields then the right record's fields; records
/// without a match on the other side are dropped, and a key holding a
/// missing value matches nothing.
pub fn join_inner(lt: &Vec<Row>, rt: &Vec<Row>, lk: &Vec<usize>, rk: &Vec<usize>) -> (res: Result<
    Vec<Row>,
    EngineError,
>)
    ensures
        match res {
            Ok(out) => run_inner_join(rows_view(lt@), rows_view(rt@), lk@, rk@) == Ok::<
                Seq<Seq<CellVal>>,
                EngineError,
            >(rows_view(out@)),
            Err(e) => run_inner_join(rows_view(lt@), rows_view(rt@), lk@, rk@) == Err::<
                Seq<Seq<CellVal>>,
                EngineError,
            >(e),
        },
{
    let ghost ltv = rows_view(lt@);
    let ghost rtv = rows_view(rt@);
    if !check_keys(lt, lk) || !check_keys(rt, rk) {
        return Err(EngineError::JoinKey);
    }
    let mut out: Vec<Row> = Vec::new();
    let mut i: usize = 0;
    proof {
        assert(ltv.take(0) =~= Seq::<Seq<CellVal>>::empty());
        assert(rows_view(out@) =~= Seq::<Seq<CellVal>>::empty());
    }
    while i < lt.len()
        invariant
            i <= lt.len(),
            ltv == rows_view(lt@),
            rtv == rows_view(rt@),
            join_keys_ok(ltv, lk@),
            join_keys_ok(rtv, rk@),
            rows_view(out@) == inner_rows(ltv.take(i as int), rtv, lk@, rk@),
        decreases lt.len() - i,
    {
        proof {
            assert(ltv[i as int] == lt@[i as int]@);
        }
        let ki = match key_of(&lt[i], lk) {
            Some(k) => k,
            None => {
                proof {
                    assert(false);
                }
                return Err(EngineError::JoinKey);
            },
        };
        let ghost base = rows_view(out@);
        let mut j: usize = 0;
        proof {
            assert(rtv.take(0) =~= Seq::<Seq<CellVal>>::empty());
        }
        while j < rt.len()
            invariant
                j <= rt.len(),
                i < lt.len(),
                ltv == rows_view(lt@),
                rtv == rows_view(rt@),
                join_keys_ok(rtv, rk@),
                cells_view(ki@) == spec_key_of(ltv[i as int], lk@),
                base == inner_rows(ltv.take(i as int), rtv, lk@, rk@),
                rows_view(out@) == base + row_matches(ltv[i as int], rtv.take(j as int), lk@, rk@),
            decreases rt.len() - j,
        {
            proof {
                assert(rtv[j as int] == rt@[j as int]@);
                assert(rtv.take(j as int + 1).drop_last() =~= rtv.take(j as int));
                assert(rtv.take(j as int + 1).last() == rtv[j as int]);
            }
            let kj = match key_of(&rt[j], rk) {
                Some(k) => k,
                None => {
                    proof {
                        assert(false);
                    }
                    return Err(EngineError::JoinKey);
                },
            };
            if keys_match_exec(&ki, &kj) {
                let nr = concat_rows(&lt[i], &rt[j]);
                let ghost prev = out@;
                out.push(nr);
                proof {
                    assert(rows_view(out@) =~= rows_view(prev).push(
                        ltv[i as int] + rtv[j as int],
                    ));
                    assert(rows_view(out@) =~= base + row_matches(
                        ltv[i as int],
                        rtv.take(j as int + 1),
                        lk@,
                        rk@,
                    ));
                }
            }
            j = j + 1;
        }
        proof {
            assert(rtv.take(rtv.len() as int) =~= rtv);
            assert(ltv.take(i as int + 1).drop_last() =~= ltv.take(i as int));
            assert(ltv.take(i as int + 1).last() == ltv[i as int]);
        }
        i = i + 1;
    }
    proof {
        assert(ltv.take(ltv.len() as int) =~= ltv);
    }
    Ok(out)
}

/// The left outer equi-join operator: every left record appears, with its
/// matches, or once with `rw` missing right fields when nothing matches it.
pub fn join_left(
    lt: &Vec<Row>,
    rt: &Vec<Row>,
    lk: &Vec<usize>,
    rk: &Vec<usize>,
    rw: usize,
) -> (res: Result<Vec<Row>, EngineError>)
    ensures
        match res {
            Ok(out) => run_left_join(rows_view(lt@), rows_view(rt@), lk@, rk@, rw as nat) == Ok::<
                Seq<Seq<CellVal>>,
                EngineError,
            >(rows_view(out@)),
            Err(e) => run_left_join(rows_view(lt@), rows_view(rt@), lk@, rk@, rw as nat) == Err::<
                Seq<Seq<CellVal>>,
                EngineError,
            >(e),
        },
{
    let ghost ltv = rows_view(lt@);
    let ghost rtv = rows_view(rt@);
    if !check_keys(lt, lk) || !check_keys(rt, rk) {
        return Err(EngineError::JoinKey);
    }
    let mut out: Vec<Row> = Vec::new();
    let mut i: usize = 0;
    proof {
        assert(ltv.take(0) =~= Seq::<Seq<CellVal>>::empty());
        assert(rows_view(out@) =~= Seq::<Seq<CellVal>>::empty());
    }
    while i < lt.len()
        invariant
            i <= lt.len(),
            ltv == rows_view(lt@),
            rtv == rows_view(rt@),
            join_keys_ok(ltv, lk@),
            join_keys_ok(rtv, rk@),
            rows_view(out@) == left_rows(ltv.take(i as int), rtv, lk@, rk@, rw as nat),
        decreases lt.len() - i,
    {
        proof {
            assert(ltv[i as int] == lt@[i as int]@);
        }
        let ki = match key_of(&lt[i], lk) {
            Some(k) => k,
            None => {
                proof {
                    assert(false);
                }
                return Err(EngineError::JoinKey);
            },
        };
        let ghost base = rows_view(out@);
        let mut matched = false;
        let mut j: usize = 0;
        proof {
            assert(rtv.take(0) =~= Seq::<Seq<CellVal>>::empty());
        }
        while j < rt.len()
            invariant
                j <= rt.len(),
                i < lt.len(),
                ltv == rows_view(lt@),
                rtv == rows_view(rt@),
                join_keys_ok(rtv, rk@),
                cells_view(ki@) == spec_key_of(ltv[i as int], lk@),
                base == left_rows(ltv.take(i as int), rtv, lk@, rk@, rw as nat),
                matched == (row_matches(ltv[i as int], rtv.take(j as int), lk@, rk@).len() > 0),
                rows_view(out@) == base + row_matches(ltv[i as int], rtv.take(j as int), lk@, rk@),
            decreases rt.len() - j,
        {
            proof {
                assert(rtv[j as int] == rt@[j as int]@);
                assert(rtv.take(j as int + 1).drop_last() =~= rtv.take(j as int));
                assert(rtv.take(j as int + 1).last() == rtv[j as int]);
            }
            let kj = match key_of(&rt[j], rk) {
                Some(k) => k,
                None => {
                    proof {
                        assert(false);
                    }
                    return Err(EngineError::JoinKey);
                },
            };
            if keys_match_exec(&ki, &kj) {
                let nr = concat_rows(&lt[i], &rt[j]);
                let ghost prev = out@;
                out.push(nr);
                matched = true;
                proof {
                    assert(rows_view(out@) =~= rows_view(prev).push(
                        ltv[i as int] + rtv[j as int],
                    ));
                    assert(rows_view(out@) =~= base + row_matches(
                        ltv[i as int],
                        rtv.take(j as int + 1),
                        lk@,
                        rk@,
                    ));
                }
            }
            j = j + 1;
        }
        proof {
            assert(rtv.take(rtv.len() as int) =~= rtv);
            assert(ltv.take(i as int + 1).drop_last() =~= ltv.take(i as int));
            assert(ltv.take(i as int + 1).last() == ltv[i as int]);
        }
        if !matched {
            let nr = concat_rows(&lt[i], &make_null_row(rw));
            let ghost prev = out@;
            out.push(nr);
            proof {
                assert(rows_view(out@) =~= rows_view(prev).push(
                    ltv[i as int] + null_row(rw as nat),
                ));
                assert(rows_view(out@) =~= base + left_block(
                    ltv[i as int],
                    rtv,
                    lk@,
                    rk@,
                    rw as nat,
                ));
            }
        }
        i = i + 1;
    }
    proof {
        assert(ltv.take(ltv.len() as int) =~= ltv);
    }
    Ok(out)
}

/// Whether some record of the left table carries this key.
fn left_has_key_exec(lt: &Vec<Row>, lk: &Vec<usize>, k: &Vec<Cell>) -> (r: bool)
    requires
        join_keys_ok(rows_view(lt@), lk@),
    ensures
        r == left_has_key(cells_view(k@), rows_view(lt@), lk@),
{
    let ghost ltv = rows_view(lt@);
    let mut i: usize = 0;
    while i < lt.len()
        invariant
            i <= lt.len(),
            ltv == rows_view(lt@),
            join_keys_ok(ltv, lk@),
            forall|m: int|
                0 <= m < i ==> !keys_match(spec_key_of(#[trigger] ltv[m], lk@), cells_view(k@)),
        decreases lt.len() - i,
    {
        proof {
            assert(ltv[i as int] == lt@[i as int]@);
        }
        let ki = match key_of(&lt[i], lk) {
            Some(kk) => kk,
            None => {
                proof {
                    assert(false);
                }
                return false;
            },
        };
        if keys_match_exec(&ki, k) {
            return true;
        }
        i = i + 1;
    }
    false
}

/// The full outer equi-join operator: every left record appears as in the
/// left join; every right record no left record matches appears once, with
/// `lw` missing left fields.
pub fn join_outer(
    lt: &Vec<Row>,
    rt: &Vec<Row>,
    lk: &Vec<usize>,
    rk: &Vec<usize>,
    lw: usize,
    rw: usize,
) -> (res: Result<Vec<Row>, EngineError>)
    ensures
        match res {
            Ok(out) => run_outer_join(rows_view(lt@), rows_view(rt@), lk@, rk@, lw as nat, rw as nat)
                == Ok::<Seq<Seq<CellVal>>, EngineError>(rows_view(out@)),
            Err(e) => run_outer_join(rows_view(lt@), rows_view(rt@), lk@, rk@, lw as nat, rw as nat)
                == Err::<Seq<Seq<CellVal>>, EngineError>(e),
        },
{
    let ghost ltv = rows_view(lt@);
    let ghost rtv = rows_view(rt@);
    let mut out = match join_left(lt, rt, lk, rk, rw) {
        Ok(out) => out,
        Err(e) => {
            return Err(e);
        },
    };
    let ghost base = rows_view(out@);
    let mut j: usize = 0;
    proof {
        assert(rtv.take(0) =~= Seq::<Seq<CellVal>>::empty());
        assert(base + right_unmatched_rows(ltv, rtv.take(0), lk@, rk@, lw as nat) =~= base);
    }
    while j < rt.len()
        invariant
            j <= rt.len(),
            ltv == rows_view(lt@),
            rtv == rows_view(rt@),
            join_keys_ok(ltv, lk@),
            join_keys_ok(rtv, rk@),
            base == left_rows(ltv, rtv, lk@, rk@, rw as nat),
            rows_view(out@) == base + right_unmatched_rows(
                ltv,
                rtv.take(j as int),
                lk@,
                rk@,
                lw as nat,
            ),
        decreases rt.len() - j,
    {
        proof {
            assert(rtv[j as int] == rt@[j as int]@);
            assert(rtv.take(j as int + 1).drop_last() =~= rtv.take(j as int));
            assert(rtv.take(j as int + 1).last() == rtv[j as int]);
        }
        let kj = match key_of(&rt[j], rk) {
            Some(k) => k,
            None => {
                proof {
                    assert(false);
                }
                return Err(EngineError::JoinKey);
            },
        };
        if !left_has_key_exec(lt, lk, &kj) {
            let nr = concat_rows(&make_null_row(lw), &rt[j]);
            let ghost prev = out@;
            out.push(nr);
            proof {
                assert(rows_view(out@) =~= rows_view(prev).push(
                    null_row(lw as nat) + rtv[j as int],
                ));
                assert(rows_view(out@) =~= base + right_unmatched_rows(
                    ltv,
                    rtv.take(j as int + 1),
                    lk@,
                    rk@,
                    lw as nat,
                ));
            }
        }
        j = j + 1;
    }
    proof {
        assert(rtv.take(rtv.len() as int) =~= rtv);
    }
    Ok(out)
}

} // verus!
