use vstd::prelude::*;

use crate::aggregate::{Reducer, run_group_reduce, group_reduce};
use crate::cell::{CellVal, Row, rows_view};
use crate::error::EngineError;
use crate::expr::{Expr, Pred};
use crate::join::{run_inner_join, run_left_join, run_outer_join, join_inner, join_left, join_outer};
use crate::scan::{run_reduce_scan, reduce_scan};
use crate::transform::{run_map, run_filter, map_table, filter_table};

verus! {

/// A lazily declared operator graph. Building a pipeline performs no work
/// and touches no input: it only records operator descriptors and their
/// upstreams. A single blocking `execute` call later runs the whole graph.
#[derive(Debug)]
pub enum Pipeline {
    /// The source table at this index of the supplied inputs.
    Source(usize),
    /// A pure per-record transform: one expression per output column.
    Select(Box<Pipeline>, Vec<Expr>),
    /// Keeps exactly the records the predicate holds on.
    Filter(Box<Pipeline>, Pred),
    /// Group-by + associative reduce over the key columns.
    GroupReduce(Box<Pipeline>, Vec<usize>, Reducer),
    /// Group-by + windowed scan summing the value column.
    ReduceScan(Box<Pipeline>, Vec<usize>, usize),
    /// Inner equi-join on the two sides' key columns.
    JoinInner(Box<Pipeline>, Box<Pipeline>, Vec<usize>, Vec<usize>),
    /// Left outer equi-join; the last field is the right side's declared
    /// arity, padding unmatched left records with missing fields.
    JoinLeft(Box<Pipeline>, Box<Pipeline>, Vec<usize>, Vec<usize>, usize),
    /// Full outer equi-join; the two arities pad whichever side is absent.
    JoinOuter(Box<Pipeline>, Box<Pipeline>, Vec<usize>, Vec<usize>, usize, usize),
}

/// The values of the supplied source tables.
pub open spec fn sources_view(ss: Seq<Vec<Row>>) -> Seq<Seq<Seq<CellVal>>> {
    ss.map(|i: int, t: Vec<Row>| rows_view(t@))
}

/// What a pipeline yields on the given source tables: the declaration's
/// meaning, which `execute` realizes.
pub open spec fn eval_pipeline(p: Pipeline, srcs: Seq<Seq<Seq<CellVal>>>) -> Result<
    Seq<Seq<CellVal>>,
    EngineError,
>
    decreases p,
{
    match p {
        Pipeline::Source(i) => if (i as int) < srcs.len() {
            Ok(srcs[i as int])
        } else {
            Err(EngineError::Source)
        },
        Pipeline::Select(up, es) => match eval_pipeline(*up, srcs) {
            Err(e) => Err(e),
            Ok(t) => run_map(es@, t),
        },
        Pipeline::Filter(up, pr) => match eval_pipeline(*up, srcs) {
            Err(e) => Err(e),
            Ok(t) => run_filter(pr, t),
        },
        Pipeline::GroupReduce(up, kc, red) => match eval_pipeline(*up, srcs) {
            Err(e) => Err(e),
            Ok(t) => run_group_reduce(kc@, red, t),
        },
        Pipeline::ReduceScan(up, kc, vc) => match eval_pipeline(*up, srcs) {
            Err(e) => Err(e),
            Ok(t) => run_reduce_scan(kc@, vc, t),
        },
        Pipeline::JoinInner(l, r, lk, rk) => match (eval_pipeline(*l, srcs), eval_pipeline(
            *r,
            srcs,
        )) {
            (Err(e), _) => Err(e),
            (Ok(_), Err(e)) => Err(e),
            (Ok(lt), Ok(rt)) => run_inner_join(lt, rt, lk@, rk@),
        },
        Pipeline::JoinLeft(l, r, lk, rk, rw) => match (eval_pipeline(*l, srcs), eval_pipeline(
            *r,
            srcs,
        )) {
            (Err(e), _) => Err(e),
            (Ok(_), Err(e)) => Err(e),
            (Ok(lt), Ok(rt)) => run_left_join(lt, rt, lk@, rk@, rw as nat),
        },
        Pipeline::JoinOuter(l, r, lk, rk, lw, rw) => match (eval_pipeline(*l, srcs), eval_pipeline(
            *r,
            srcs,
        )) {
            (Err(e), _) => Err(e),
            (Ok(_), Err(e)) => Err(e),
            (Ok(lt), Ok(rt)) => run_outer_join(lt, rt, lk@, rk@, lw as nat, rw as nat),
        },
    }
}

/// A fresh copy of a table, carrying the same record values.
fn dup_table(t: &Vec<Row>) -> (r: Vec<Row>)
    ensures
        rows_view(r@) == rows_view(t@),
{
    let mut out: Vec<Row> = Vec::new();
    let mut i: usize = 0;
    while i < t.len()
        invariant
            i <= t.len(),
            out@.len() == i,
            forall|j: int| 0 <= j < i ==> #[trigger] out@[j]@ == t@[j]@,
        decreases t.len() - i,
    {
        out.push(t[i].dup());
        i = i + 1;
    }
    proof {
        assert(rows_view(out@) =~= rows_view(t@));
    }
    out
}

/// Runs a declared pipeline to completion on the given source tables: the
/// one blocking call that performs the work. It returns the materialized
/// records, or the first failing operator's error; building the pipeline
/// never raised one.
#[verifier::rlimit(100)]
pub fn execute(p: &Pipeline, sources: &Vec<Vec<Row>>) -> (res: Result<Vec<Row>, EngineError>)
    ensures
        match res {
            Ok(out) => eval_pipeline(*p, sources_view(sources@)) == Ok::<
                Seq<Seq<CellVal>>,
                EngineError,
            >(rows_view(out@)),
            Err(e) => eval_pipeline(*p, sources_view(sources@)) == Err::<
                Seq<Seq<CellVal>>,
                EngineError,
            >(e),
        },
    decreases p,
{
    match p {
        Pipeline::Source(i) => {
            if *i < sources.len() {
                let t = dup_table(&sources[*i]);
                proof {
                    assert(sources_view(sources@)[*i as int] == rows_view(sources@[*i as int]@));
                }
                Ok(t)
            } else {
                Err(EngineError::Source)
            }
        },
        Pipeline::Select(up, es) => match execute(&**up, sources) {
            Err(e) => Err(e),
            Ok(t) => map_table(es, &t),
        },
        Pipeline::Filter(up, pr) => match execute(&**up, sources) {
            Err(e) => Err(e),
            Ok(t) => filter_table(pr, &t),
        },
        Pipeline::GroupReduce(up, kc, red) => match execute(&**up, sources) {
            Err(e) => Err(e),
            Ok(t) => group_reduce(kc, *red, &t),
        },
        Pipeline::ReduceScan(up, kc, vc) => match execute(&**up, sources) {
            Err(e) => Err(e),
            Ok(t) => reduce_scan(kc, *vc, &t),
        },
        Pipeline::JoinInner(l, r, lk, rk) => match execute(&**l, sources) {
            Err(e) => Err(e),
            Ok(lt) => match execute(&**r, sources) {
                Err(e) => Err(e),
                Ok(rt) => join_inner(&lt, &rt, lk, rk),
            },
        },
        Pipeline::JoinLeft(l, r, lk, rk, rw) => match execute(&**l, sources) {
            Err(e) => Err(e),
            Ok(lt) => match execute(&**r, sources) {
                Err(e) => Err(e),
                Ok(rt) => join_left(&lt, &rt, lk, rk, *rw),
            },
        },
        Pipeline::JoinOuter(l, r, lk, rk, lw, rw) => match execute(&**l, sources) {
            Err(e) => Err(e),
            Ok(lt) => match execute(&**r, sources) {
                Err(e) => Err(e),
                Ok(rt) => join_outer(&lt, &rt, lk, rk, *lw, *rw),
            },
        },
    }
}

/// A declared dataflow: terminal pipelines registered for materialization,
/// awaiting one run. Registration performs no work.
#[derive(Debug)]
pub struct Dataflow {
    pub terminals: Vec<Pipeline>,
}

impl Dataflow {
    /// An empty dataflow with no registered terminal.
    pub fn new() -> (d: Dataflow)
        ensures
            d.terminals@.len() == 0,
    {
        Dataflow { terminals: Vec::new() }
    }

    /// Registers a materialization point and returns its handle: the index
    /// at which `execute_all` will deliver this pipeline's records.
    pub fn add_terminal(&mut self, p: Pipeline) -> (h: usize)
        ensures
            final(self).terminals@ == old(self).terminals@.push(p),
            h as int == old(self).terminals@.len(),
    {
        let h = self.terminals.len();
        self.terminals.push(p);
        h
    }

    /// Runs every registered terminal to completion, in registration order.
    /// All or nothing: if any operator of any terminal fails, the whole run
    /// fails with the first such error and no result is delivered.
    pub fn execute_all(&self, sources: &Vec<Vec<Row>>) -> (res: Result<Vec<Vec<Row>>, EngineError>)
        ensures
            match res {
                Ok(outs) => outs@.len() == self.terminals@.len() && forall|i: int|
                    0 <= i < outs@.len() ==> eval_pipeline(
                        self.terminals@[i],
                        sources_view(sources@),
                    ) == Ok::<Seq<Seq<CellVal>>, EngineError>(rows_view(#[trigger] outs@[i]@)),
                Err(e) => exists|i: int|
                    0 <= i < self.terminals@.len() && eval_pipeline(
                        #[trigger] self.terminals@[i],
                        sources_view(sources@),
                    ) == Err::<Seq<Seq<CellVal>>, EngineError>(e),
            },
    {
        let mut outs: Vec<Vec<Row>> = Vec::new();
        let mut i: usize = 0;
        while i < self.terminals.len()
            invariant
                i <= self.terminals@.len(),
                outs@.len() == i,
                forall|j: int|
                    0 <= j < i ==> eval_pipeline(self.terminals@[j], sources_view(sources@))
                        == Ok::<Seq<Seq<CellVal>>, EngineError>(rows_view(#[trigger] outs@[j]@)),
            decreases self.terminals@.len() - i,
        {
            match execute(&self.terminals[i], sources) {
                Ok(out) => {
                    outs.push(out);
                },
                Err(e) => {
                    return Err(e);
                },
            }
            i = i + 1;
        }
        Ok(outs)
    }
}

} // verus!
