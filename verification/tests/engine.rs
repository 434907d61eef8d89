use rowflow::aggregate::{group_reduce, AggOp, Reducer};
use rowflow::cell::{Cell, Row};
use rowflow::error::EngineError;
use rowflow::expr::{subst_pred, ArithOp, CmpOp, Expr, Pred};
use rowflow::join::{join_inner, join_left, join_outer};
use rowflow::pipeline::{execute, Dataflow, Pipeline};
use rowflow::scan::reduce_scan;
use rowflow::schema::{join_output_schema, lift_nullable, validate_table, ColType, Column, JoinKind};
use rowflow::transform::{filter_table, map_table};

fn iv(v: i64) -> Cell {
    Cell::Int(v)
}

fn text(v: &str) -> Cell {
    Cell::Str(v.to_string())
}

fn row(cells: Vec<Cell>) -> Row {
    Row { cells }
}

fn col(name: &str, ty: ColType, nullable: bool) -> Column {
    Column { name: name.to_string(), ty, nullable }
}

#[test]
fn filter_keeps_matching_records() {
    let rows = vec![
        row(vec![iv(100), text("unduetre"), iv(7)]),
        row(vec![iv(200), text("altro"), iv(8)]),
        row(vec![iv(300), text("unduetre"), iv(9)]),
    ];
    let pred = Pred::Cmp(CmpOp::Eq, Expr::Col(1), Expr::Lit(text("unduetre")));
    let out = filter_table(&pred, &rows).unwrap();
    assert_eq!(out.len(), 2);
    assert_eq!(out[0].cells[0], iv(100));
    assert_eq!(out[1].cells[0], iv(300));
}

#[test]
fn map_projects_and_computes() {
    let rows = vec![row(vec![iv(1), iv(2), iv(3)])];
    let exprs = vec![
        Expr::Col(0),
        Expr::Arith(ArithOp::Add, Box::new(Expr::Col(2)), Box::new(Expr::Lit(iv(100)))),
        Expr::Arith(ArithOp::Mul, Box::new(Expr::Col(0)), Box::new(Expr::Lit(iv(20)))),
    ];
    let out = map_table(&exprs, &rows).unwrap();
    assert_eq!(out.len(), 1);
    assert_eq!(out[0].cells, vec![iv(1), iv(103), iv(20)]);
}

#[test]
fn map_propagates_missing_values() {
    let rows = vec![row(vec![Cell::Null, iv(5)])];
    let exprs = vec![
        Expr::Arith(ArithOp::Mul, Box::new(Expr::Col(0)), Box::new(Expr::Lit(iv(20)))),
        Expr::Col(1),
    ];
    let out = map_table(&exprs, &rows).unwrap();
    assert_eq!(out[0].cells, vec![Cell::Null, iv(5)]);
}

#[test]
fn map_reports_overflow_as_execution_error() {
    let rows = vec![row(vec![iv(i64::MAX)])];
    let exprs = vec![Expr::Arith(
        ArithOp::Add,
        Box::new(Expr::Col(0)),
        Box::new(Expr::Lit(iv(1))),
    )];
    assert_eq!(map_table(&exprs, &rows), Err(EngineError::Execution));
}

#[test]
fn map_reports_bad_column_as_schema_error() {
    let rows = vec![row(vec![iv(1)])];
    let exprs = vec![Expr::Col(3)];
    assert_eq!(map_table(&exprs, &rows), Err(EngineError::Schema));
}

#[test]
fn filter_comparison_on_missing_is_false() {
    let rows = vec![
        row(vec![Cell::Null]),
        row(vec![iv(150)]),
        row(vec![iv(250)]),
    ];
    let pred = Pred::Cmp(CmpOp::Lt, Expr::Col(0), Expr::Lit(iv(200)));
    let out = filter_table(&pred, &rows).unwrap();
    assert_eq!(out.len(), 1);
    assert_eq!(out[0].cells, vec![iv(150)]);
}

#[test]
fn group_reduce_concat_scenario() {
    let rows = vec![
        row(vec![iv(1), text("x")]),
        row(vec![iv(2), text("y")]),
        row(vec![iv(1), text("z")]),
    ];
    let out = group_reduce(&vec![0], Reducer { col: 1, op: AggOp::Concat }, &rows).unwrap();
    assert_eq!(out.len(), 2);
    assert_eq!(out[0].cells, vec![iv(1), text("xz")]);
    assert_eq!(out[1].cells, vec![iv(2), text("y")]);
}

#[test]
fn group_reduce_sums_per_key() {
    let rows = vec![
        row(vec![text("apple"), iv(10)]),
        row(vec![text("pear"), iv(5)]),
        row(vec![text("apple"), iv(7)]),
    ];
    let out = group_reduce(&vec![0], Reducer { col: 1, op: AggOp::Sum }, &rows).unwrap();
    assert_eq!(out.len(), 2);
    assert_eq!(out[0].cells, vec![text("apple"), iv(17)]);
    assert_eq!(out[1].cells, vec![text("pear"), iv(5)]);
}

#[test]
fn group_reduce_singleton_key_is_unchanged() {
    let rows = vec![
        row(vec![iv(1), iv(10), iv(100)]),
        row(vec![iv(2), iv(20), iv(200)]),
    ];
    let out = group_reduce(&vec![0], Reducer { col: 1, op: AggOp::Sum }, &rows).unwrap();
    assert_eq!(out.len(), 2);
    assert_eq!(out[0], rows[0]);
    assert_eq!(out[1], rows[1]);
}

#[test]
fn group_reduce_null_strict_merge() {
    let rows = vec![
        row(vec![iv(1), iv(10)]),
        row(vec![iv(1), Cell::Null]),
    ];
    let out = group_reduce(&vec![0], Reducer { col: 1, op: AggOp::Sum }, &rows).unwrap();
    assert_eq!(out.len(), 1);
    assert_eq!(out[0].cells, vec![iv(1), Cell::Null]);
}

#[test]
fn group_reduce_null_keys_never_group() {
    let rows = vec![
        row(vec![Cell::Null, iv(1)]),
        row(vec![Cell::Null, iv(2)]),
    ];
    let out = group_reduce(&vec![0], Reducer { col: 1, op: AggOp::Sum }, &rows).unwrap();
    assert_eq!(out.len(), 2);
    assert_eq!(out[0].cells, vec![Cell::Null, iv(1)]);
    assert_eq!(out[1].cells, vec![Cell::Null, iv(2)]);
}

#[test]
fn group_reduce_rejects_key_column_reducer() {
    let rows = vec![row(vec![iv(1), iv(2)])];
    let res = group_reduce(&vec![0], Reducer { col: 0, op: AggOp::Sum }, &rows);
    assert_eq!(res, Err(EngineError::Schema));
}

#[test]
fn group_reduce_sum_wraps_like_machine_words() {
    let rows = vec![
        row(vec![iv(7), iv(i64::MAX)]),
        row(vec![iv(7), iv(1)]),
    ];
    let out = group_reduce(&vec![0], Reducer { col: 1, op: AggOp::Sum }, &rows).unwrap();
    assert_eq!(out[0].cells, vec![iv(7), iv(i64::MIN)]);
}

#[test]
fn group_reduce_min_max() {
    let rows = vec![
        row(vec![iv(1), iv(9), iv(9)]),
        row(vec![iv(1), iv(4), iv(4)]),
    ];
    let lo = group_reduce(&vec![0], Reducer { col: 1, op: AggOp::Min }, &rows).unwrap();
    assert_eq!(lo[0].cells[1], iv(4));
    let hi = group_reduce(&vec![0], Reducer { col: 2, op: AggOp::Max }, &rows).unwrap();
    assert_eq!(hi[0].cells[2], iv(9));
}

#[test]
fn reduce_scan_one_output_per_input() {
    let rows = vec![
        row(vec![text("a"), iv(1)]),
        row(vec![text("b"), iv(2)]),
        row(vec![text("a"), iv(3)]),
    ];
    let out = reduce_scan(&vec![0], 1, &rows).unwrap();
    assert_eq!(out.len(), 3);
    assert_eq!(out[0].cells, vec![text("a"), iv(1), iv(4), iv(2)]);
    assert_eq!(out[1].cells, vec![text("b"), iv(2), iv(2), iv(1)]);
    assert_eq!(out[2].cells, vec![text("a"), iv(3), iv(4), iv(2)]);
}

#[test]
fn reduce_scan_missing_counts_as_zero() {
    let rows = vec![
        row(vec![text("a"), Cell::Null]),
        row(vec![text("a"), iv(6)]),
    ];
    let out = reduce_scan(&vec![0], 1, &rows).unwrap();
    assert_eq!(out[0].cells, vec![text("a"), Cell::Null, iv(6), iv(2)]);
    assert_eq!(out[1].cells, vec![text("a"), iv(6), iv(6), iv(2)]);
}

#[test]
fn reduce_scan_null_key_groups_alone() {
    let rows = vec![
        row(vec![Cell::Null, iv(5)]),
        row(vec![Cell::Null, iv(7)]),
    ];
    let out = reduce_scan(&vec![0], 1, &rows).unwrap();
    assert_eq!(out[0].cells, vec![Cell::Null, iv(5), iv(5), iv(1)]);
    assert_eq!(out[1].cells, vec![Cell::Null, iv(7), iv(7), iv(1)]);
}

#[test]
fn reduce_scan_bad_value_column_is_schema_error() {
    let rows = vec![row(vec![text("a"), text("not a number")])];
    assert_eq!(reduce_scan(&vec![0], 1, &rows), Err(EngineError::Schema));
}

#[test]
fn inner_join_matches_on_equal_keys() {
    let left = vec![
        row(vec![iv(1), text("a")]),
        row(vec![iv(2), text("b")]),
    ];
    let right = vec![
        row(vec![iv(2), iv(20)]),
        row(vec![iv(3), iv(30)]),
    ];
    let out = join_inner(&left, &right, &vec![0], &vec![0]).unwrap();
    assert_eq!(out.len(), 1);
    assert_eq!(out[0].cells, vec![iv(2), text("b"), iv(2), iv(20)]);
}

#[test]
fn inner_join_null_keys_never_match() {
    let left = vec![row(vec![Cell::Null, iv(1)])];
    let right = vec![row(vec![Cell::Null, iv(2)])];
    let out = join_inner(&left, &right, &vec![0], &vec![0]).unwrap();
    assert_eq!(out.len(), 0);
}

#[test]
fn inner_join_duplicate_keys_multiply() {
    let left = vec![
        row(vec![iv(1)]),
        row(vec![iv(1)]),
    ];
    let right = vec![
        row(vec![iv(1), iv(10)]),
        row(vec![iv(1), iv(20)]),
    ];
    let out = join_inner(&left, &right, &vec![0], &vec![0]).unwrap();
    assert_eq!(out.len(), 4);
}

#[test]
fn join_bad_key_column_is_join_key_error() {
    let left = vec![row(vec![iv(1)])];
    let right = vec![row(vec![iv(1)])];
    assert_eq!(join_inner(&left, &right, &vec![5], &vec![0]), Err(EngineError::JoinKey));
}

#[test]
fn left_join_scenario_unmatched_left() {
    // left = {(k=1, v=10)}, right = {}
    let left = vec![row(vec![iv(1), iv(10)])];
    let right: Vec<Row> = vec![];
    let lj = join_left(&left, &right, &vec![0], &vec![0], 2).unwrap();
    assert_eq!(lj.len(), 1);
    assert_eq!(lj[0].cells, vec![iv(1), iv(10), Cell::Null, Cell::Null]);
    let oj = join_outer(&left, &right, &vec![0], &vec![0], 2, 2).unwrap();
    assert_eq!(oj, lj);
    let ij = join_inner(&left, &right, &vec![0], &vec![0]).unwrap();
    assert_eq!(ij.len(), 0);
}

#[test]
fn left_join_keeps_matched_and_unmatched() {
    let left = vec![
        row(vec![text("apple"), iv(1)]),
        row(vec![text("kiwi"), iv(2)]),
    ];
    let right = vec![row(vec![text("apple"), iv(9)])];
    let out = join_left(&left, &right, &vec![0], &vec![0], 2).unwrap();
    assert_eq!(out.len(), 2);
    assert_eq!(out[0].cells, vec![text("apple"), iv(1), text("apple"), iv(9)]);
    assert_eq!(out[1].cells, vec![text("kiwi"), iv(2), Cell::Null, Cell::Null]);
}

#[test]
fn outer_join_pads_both_sides() {
    let left = vec![row(vec![text("apple"), iv(1)])];
    let right = vec![
        row(vec![text("apple"), iv(9)]),
        row(vec![text("plum"), iv(3)]),
    ];
    let out = join_outer(&left, &right, &vec![0], &vec![0], 2, 2).unwrap();
    assert_eq!(out.len(), 2);
    assert_eq!(out[0].cells, vec![text("apple"), iv(1), text("apple"), iv(9)]);
    assert_eq!(out[1].cells, vec![Cell::Null, Cell::Null, text("plum"), iv(3)]);
}

#[test]
fn filter_then_map_equals_map_then_filter() {
    let rows = vec![
        row(vec![iv(1), iv(50)]),
        row(vec![iv(2), iv(250)]),
        row(vec![iv(3), iv(150)]),
    ];
    // the map writes (col 0, col 1 + 100); the filter reads the mapped col 1
    let exprs = vec![
        Expr::Col(0),
        Expr::Arith(ArithOp::Add, Box::new(Expr::Col(1)), Box::new(Expr::Lit(iv(100)))),
    ];
    let pred = Pred::Cmp(CmpOp::Lt, Expr::Col(1), Expr::Lit(iv(300)));
    let mapped = map_table(&exprs, &rows).unwrap();
    let map_then_filter = filter_table(&pred, &mapped).unwrap();
    let translated = subst_pred(&pred, &exprs).unwrap();
    let kept = filter_table(&translated, &rows).unwrap();
    let filter_then_map = map_table(&exprs, &kept).unwrap();
    assert_eq!(map_then_filter, filter_then_map);
    assert_eq!(map_then_filter.len(), 2);
}

#[test]
fn subst_rejects_unwritten_column() {
    let exprs = vec![Expr::Col(0)];
    let pred = Pred::Cmp(CmpOp::Eq, Expr::Col(4), Expr::Lit(iv(1)));
    assert!(matches!(subst_pred(&pred, &exprs), Err(EngineError::Schema)));
}

#[test]
fn pipeline_is_lazy_and_execute_materializes() {
    let sources = vec![vec![
        row(vec![iv(1), iv(10)]),
        row(vec![iv(2), iv(20)]),
    ]];
    let p = Pipeline::Filter(
        Box::new(Pipeline::Source(0)),
        Pred::Cmp(CmpOp::Gt, Expr::Col(1), Expr::Lit(iv(15))),
    );
    let out = execute(&p, &sources).unwrap();
    assert_eq!(out.len(), 1);
    assert_eq!(out[0].cells, vec![iv(2), iv(20)]);
}

#[test]
fn pipeline_missing_source_is_source_error() {
    let sources: Vec<Vec<Row>> = vec![];
    assert_eq!(execute(&Pipeline::Source(0), &sources), Err(EngineError::Source));
}

#[test]
fn dataflow_runs_group_reduce_join_pipeline() {
    // mirror of a grouped-reduce-then-join client: sum int2 per int1 on one
    // source, join the accumulators with the other source on the key, then
    // widen with a computed column
    let ints = vec![
        row(vec![iv(1), iv(5), iv(100)]),
        row(vec![iv(1), iv(6), iv(200)]),
        row(vec![iv(2), iv(7), iv(300)]),
    ];
    let named = vec![
        row(vec![iv(1), text("uno"), iv(40)]),
        row(vec![iv(3), text("tre"), iv(60)]),
    ];
    let reduced = Pipeline::GroupReduce(
        Box::new(Pipeline::Source(0)),
        vec![0],
        Reducer { col: 1, op: AggOp::Sum },
    );
    let joined = Pipeline::JoinInner(
        Box::new(reduced),
        Box::new(Pipeline::Source(1)),
        vec![0],
        vec![0],
    );
    let shaped = Pipeline::Select(
        Box::new(joined),
        vec![
            Expr::Col(1),
            Expr::Col(4),
            Expr::Arith(ArithOp::Add, Box::new(Expr::Col(5)), Box::new(Expr::Lit(iv(100)))),
        ],
    );
    let mut flow = Dataflow::new();
    let h = flow.add_terminal(shaped);
    assert_eq!(h, 0);
    let outs = flow.execute_all(&vec![ints, named]).unwrap();
    assert_eq!(outs.len(), 1);
    assert_eq!(outs[0].len(), 1);
    assert_eq!(outs[0][0].cells, vec![iv(11), text("uno"), iv(140)]);
}

#[test]
fn dataflow_fails_as_a_whole() {
    let sources = vec![vec![row(vec![iv(1)])]];
    let mut flow = Dataflow::new();
    flow.add_terminal(Pipeline::Source(0));
    flow.add_terminal(Pipeline::Source(9));
    assert_eq!(flow.execute_all(&sources), Err(EngineError::Source));
}

#[test]
fn validate_table_accepts_conforming_records() {
    let schema = vec![
        col("fruit", ColType::Str, false),
        col("weight", ColType::Int, false),
        col("price", ColType::Int, true),
    ];
    let rows = vec![
        row(vec![text("apple"), iv(3), Cell::Null]),
        row(vec![text("pear"), iv(4), iv(7)]),
    ];
    assert!(validate_table(&rows, &schema).is_ok());
}

#[test]
fn validate_table_rejects_null_in_strict_column() {
    let schema = vec![col("weight", ColType::Int, false)];
    let rows = vec![row(vec![Cell::Null])];
    assert_eq!(validate_table(&rows, &schema), Err(EngineError::Source));
}

#[test]
fn validate_table_rejects_wrong_arity_and_type() {
    let schema = vec![col("weight", ColType::Int, false)];
    assert_eq!(validate_table(&vec![row(vec![])], &schema), Err(EngineError::Source));
    assert_eq!(
        validate_table(&vec![row(vec![text("seven")])], &schema),
        Err(EngineError::Source)
    );
}

#[test]
fn lift_nullable_widens_every_column() {
    let schema = vec![
        col("fruit", ColType::Str, false),
        col("price", ColType::Int, true),
    ];
    let lifted = lift_nullable(&schema);
    assert_eq!(lifted.len(), 2);
    assert!(lifted.iter().all(|c| c.nullable));
    assert_eq!(lifted[0].name, "fruit");
}

#[test]
fn join_schema_renames_collisions_and_widens() {
    let left = vec![
        col("fruit", ColType::Str, false),
        col("weight", ColType::Int, false),
    ];
    let right = vec![
        col("fruit", ColType::Str, false),
        col("price", ColType::Int, true),
    ];
    let out = join_output_schema(&left, &right, JoinKind::Left);
    assert_eq!(out.len(), 4);
    assert_eq!(out[0].name, "fruit");
    assert!(!out[0].nullable);
    assert_eq!(out[2].name, "fruit_right");
    assert!(out[2].nullable);
    assert_eq!(out[3].name, "price");

    let outer = join_output_schema(&left, &right, JoinKind::Outer);
    assert!(outer.iter().all(|c| c.nullable));

    let inner = join_output_schema(&left, &right, JoinKind::Inner);
    assert!(!inner[0].nullable);
    assert!(inner[3].nullable);
}

#[test]
fn group_reduce_partition_independence_example() {
    // reducing a key's records all at once equals merging the reduces of two
    // consecutive subgroups of them
    let all = vec![
        row(vec![iv(1), iv(3)]),
        row(vec![iv(1), iv(4)]),
        row(vec![iv(1), iv(5)]),
    ];
    let red = Reducer { col: 1, op: AggOp::Sum };
    let whole = group_reduce(&vec![0], red, &all).unwrap();
    let first = group_reduce(&vec![0], red, &vec![all[0].clone()]).unwrap();
    let rest = group_reduce(&vec![0], red, &vec![all[1].clone(), all[2].clone()]).unwrap();
    let merged = group_reduce(&vec![0], red, &vec![first[0].clone(), rest[0].clone()]).unwrap();
    assert_eq!(whole, merged);
    assert_eq!(whole[0].cells, vec![iv(1), iv(12)]);
}

#[test]
fn pipeline_filter_select_chain() {
    // filter on a string column, then project a single column
    let sources = vec![vec![
        row(vec![iv(100), text("unduetre"), iv(7)]),
        row(vec![iv(200), text("altro"), iv(8)]),
    ]];
    let p = Pipeline::Select(
        Box::new(Pipeline::Filter(
            Box::new(Pipeline::Source(0)),
            Pred::Cmp(CmpOp::Eq, Expr::Col(1), Expr::Lit(text("unduetre"))),
        )),
        vec![Expr::Col(0)],
    );
    let out = execute(&p, &sources).unwrap();
    assert_eq!(out.len(), 1);
    assert_eq!(out[0].cells, vec![iv(100)]);
}

#[test]
fn pipeline_join_then_disjunctive_filter() {
    // join two sources on a key, then keep records whose state column
    // matches any of several constants
    let people = vec![
        row(vec![iv(1), text("OR")]),
        row(vec![iv(2), text("NY")]),
        row(vec![iv(3), text("CA")]),
    ];
    let auctions = vec![
        row(vec![iv(1), iv(10)]),
        row(vec![iv(2), iv(10)]),
        row(vec![iv(3), iv(10)]),
    ];
    let joined = Pipeline::JoinInner(
        Box::new(Pipeline::Source(0)),
        Box::new(Pipeline::Source(1)),
        vec![0],
        vec![0],
    );
    let filtered = Pipeline::Filter(
        Box::new(joined),
        Pred::Or(
            Box::new(Pred::Cmp(CmpOp::Eq, Expr::Col(1), Expr::Lit(text("OR")))),
            Box::new(Pred::Cmp(CmpOp::Eq, Expr::Col(1), Expr::Lit(text("CA")))),
        ),
    );
    let out = execute(&filtered, &vec![people, auctions]).unwrap();
    assert_eq!(out.len(), 2);
    assert_eq!(out[0].cells[0], iv(1));
    assert_eq!(out[1].cells[0], iv(3));
}

#[test]
fn pipeline_windowed_scan_keeps_cardinality() {
    let sources = vec![vec![
        row(vec![text("a"), iv(10)]),
        row(vec![text("a"), iv(20)]),
        row(vec![text("b"), iv(5)]),
    ]];
    let p = Pipeline::ReduceScan(Box::new(Pipeline::Source(0)), vec![0], 1);
    let out = execute(&p, &sources).unwrap();
    assert_eq!(out.len(), 3);
    // every member of a key carries the group's complete fold
    assert_eq!(out[0].cells[2], iv(30));
    assert_eq!(out[0].cells[3], iv(2));
    assert_eq!(out[1].cells[2], iv(30));
    assert_eq!(out[2].cells[2], iv(5));
    assert_eq!(out[2].cells[3], iv(1));
}
