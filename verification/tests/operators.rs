use crustydb::bytecode_expr::{colidx_expr, ByteCodeExpr, ByteCodes};
use crustydb::error::CrustyError;
use crustydb::field::{compare_fields, AggOp, BooleanOp, Field};
use crustydb::opiterator::aggregate::{Aggregate, AggregateState};
use crustydb::opiterator::nested_loop_join::NestedLoopJoin;
use crustydb::opiterator::tuple_iterator::TupleIterator;
use crustydb::opiterator::{drain, drain_twice, OpIterator};
use crustydb::tuple::{Attribute, DataType, TableSchema, Tuple};

fn f_int(i: i64) -> Field {
    Field::Int(i)
}

fn f_str(s: &str) -> Field {
    Field::String(s.to_string())
}

/// The decimal that prints as the number does.
fn f_decimal(f: f64) -> Field {
    let text = format!("{}", f);
    match text.find('.') {
        Some(dot) => {
            let digits: String = text.chars().filter(|c| *c != '.').collect();
            Field::Decimal(
                digits.parse::<i128>().unwrap(),
                (text.len() - dot - 1) as u16,
            )
        }
        None => Field::Decimal(text.parse::<i128>().unwrap(), 0),
    }
}

/// The division that the aggregation is given for its means.
fn mean_of_decimal(mantissa: i128, scale: u16, count: i64) -> Field {
    f_decimal((mantissa as f64 / 10f64.powi(scale as i32)) / count as f64)
}

// The table of the tests:
// 1 1 3 E
// 2 1 3 G
// 3 1 4 A
// 4 2 4 G
// 5 2 5 G
// 6 2 5 G
fn test_tuples() -> Vec<Tuple> {
    let rows = [
        (1, 1, 3, "E"),
        (2, 1, 3, "G"),
        (3, 1, 4, "A"),
        (4, 2, 4, "G"),
        (5, 2, 5, "G"),
        (6, 2, 5, "G"),
    ];
    rows.iter()
        .map(|(i, a, b, s)| Tuple::new(vec![f_int(*i), f_int(*a), f_int(*b), f_str(s)]))
        .collect()
}

fn test_schema() -> TableSchema {
    TableSchema::new(vec![
        Attribute {
            name: "i".to_string(),
            dtype: DataType::Int,
        },
        Attribute {
            name: "a".to_string(),
            dtype: DataType::Int,
        },
        Attribute {
            name: "b".to_string(),
            dtype: DataType::Int,
        },
        Attribute {
            name: "s".to_string(),
            dtype: DataType::String,
        },
    ])
}

fn execute_iter<O: OpIterator>(iter: &mut O, sorted: bool) -> Result<Vec<Tuple>, CrustyError> {
    iter.open()?;
    let mut res = Vec::new();
    while let Some(t) = iter.next()? {
        res.push(t);
    }
    if sorted {
        res.sort();
    }
    Ok(res)
}

type TestAggregate = Aggregate<TupleIterator, fn(i128, u16, i64) -> Field>;

fn get_agg_iter(
    groupby_expr: Vec<ByteCodeExpr>,
    agg_expr: Vec<ByteCodeExpr>,
    ops: Vec<AggOp>,
) -> TestAggregate {
    let dummy_schema = TableSchema::new(vec![]);
    let mut iter = Aggregate::new(
        groupby_expr,
        agg_expr,
        ops,
        dummy_schema,
        TupleIterator::new(test_tuples(), test_schema()),
        mean_of_decimal as fn(i128, u16, i64) -> Field,
    );
    iter.configure(false);
    iter
}

fn run_aggregate(
    groupby_expr: Vec<ByteCodeExpr>,
    agg_expr: Vec<ByteCodeExpr>,
    ops: Vec<AggOp>,
) -> Vec<Tuple> {
    let mut iter = get_agg_iter(groupby_expr, agg_expr, ops);
    execute_iter(&mut iter, true).unwrap()
}

#[test]
fn test_empty_group() {
    let group_by = vec![];
    let agg = vec![colidx_expr(0), colidx_expr(1), colidx_expr(2)];
    let ops = vec![AggOp::Count, AggOp::Max, AggOp::Avg];
    let t = run_aggregate(group_by, agg, ops);
    assert_eq!(t.len(), 1);
    assert_eq!(t[0], Tuple::new(vec![f_int(6), f_int(2), f_decimal(4.0)]));
}

#[test]
fn test_empty_aggregation() {
    let group_by = vec![colidx_expr(2)];
    let agg = vec![];
    let ops = vec![];
    let t = run_aggregate(group_by, agg, ops);
    assert_eq!(t.len(), 3);
    assert_eq!(t[0], Tuple::new(vec![f_int(3)]));
    assert_eq!(t[1], Tuple::new(vec![f_int(4)]));
    assert_eq!(t[2], Tuple::new(vec![f_int(5)]));
}

#[test]
fn test_count() {
    let group_by = vec![colidx_expr(1), colidx_expr(2)];
    let agg = vec![colidx_expr(0)];
    let ops = vec![AggOp::Count];
    let t = run_aggregate(group_by, agg, ops);
    // Output:
    // 1 3 2
    // 1 4 1
    // 2 4 1
    // 2 5 2
    assert_eq!(t.len(), 4);
    assert_eq!(t[0], Tuple::new(vec![f_int(1), f_int(3), f_int(2)]));
    assert_eq!(t[1], Tuple::new(vec![f_int(1), f_int(4), f_int(1)]));
    assert_eq!(t[2], Tuple::new(vec![f_int(2), f_int(4), f_int(1)]));
    assert_eq!(t[3], Tuple::new(vec![f_int(2), f_int(5), f_int(2)]));
}

#[test]
fn test_sum() {
    let group_by = vec![colidx_expr(1), colidx_expr(2)];
    let agg = vec![colidx_expr(0)];
    let ops = vec![AggOp::Sum];
    let tuples = run_aggregate(group_by, agg, ops);
    // Output:
    // 1 3 3
    // 1 4 3
    // 2 4 4
    // 2 5 11
    assert_eq!(tuples.len(), 4);
    assert_eq!(tuples[0], Tuple::new(vec![f_int(1), f_int(3), f_int(3)]));
    assert_eq!(tuples[1], Tuple::new(vec![f_int(1), f_int(4), f_int(3)]));
    assert_eq!(tuples[2], Tuple::new(vec![f_int(2), f_int(4), f_int(4)]));
    assert_eq!(tuples[3], Tuple::new(vec![f_int(2), f_int(5), f_int(11)]));
}

#[test]
fn test_max() {
    let group_by = vec![colidx_expr(1), colidx_expr(2)];
    let agg = vec![colidx_expr(3)];
    let ops = vec![AggOp::Max];
    let t = run_aggregate(group_by, agg, ops);
    // Output:
    // 1 3 G
    // 1 4 A
    // 2 4 G
    // 2 5 G
    assert_eq!(t.len(), 4);
    assert_eq!(t[0], Tuple::new(vec![f_int(1), f_int(3), f_str("G")]));
    assert_eq!(t[1], Tuple::new(vec![f_int(1), f_int(4), f_str("A")]));
    assert_eq!(t[2], Tuple::new(vec![f_int(2), f_int(4), f_str("G")]));
    assert_eq!(t[3], Tuple::new(vec![f_int(2), f_int(5), f_str("G")]));
}

#[test]
fn test_min() {
    let group_by = vec![colidx_expr(1), colidx_expr(2)];
    let agg = vec![colidx_expr(3)];
    let ops = vec![AggOp::Min];
    let t = run_aggregate(group_by, agg, ops);
    // Output:
    // 1 3 E
    // 1 4 A
    // 2 4 G
    // 2 5 G
    assert!(t.len() == 4);
    assert_eq!(t[0], Tuple::new(vec![f_int(1), f_int(3), f_str("E")]));
    assert_eq!(t[1], Tuple::new(vec![f_int(1), f_int(4), f_str("A")]));
    assert_eq!(t[2], Tuple::new(vec![f_int(2), f_int(4), f_str("G")]));
    assert_eq!(t[3], Tuple::new(vec![f_int(2), f_int(5), f_str("G")]));
}

#[test]
fn test_avg() {
    let group_by = vec![colidx_expr(1), colidx_expr(2)];
    let agg = vec![colidx_expr(0)];
    let ops = vec![AggOp::Avg];
    let t = run_aggregate(group_by, agg, ops);
    // Output:
    // 1 3 1.5
    // 1 4 3.0
    // 2 4 4.0
    // 2 5 5.5
    assert_eq!(t.len(), 4);
    assert_eq!(t[0], Tuple::new(vec![f_int(1), f_int(3), f_decimal(1.5)]));
    assert_eq!(t[1], Tuple::new(vec![f_int(1), f_int(4), f_decimal(3.0)]));
    assert_eq!(t[2], Tuple::new(vec![f_int(2), f_int(4), f_decimal(4.0)]));
    assert_eq!(t[3], Tuple::new(vec![f_int(2), f_int(5), f_decimal(5.5)]));
}

#[test]
fn test_multi_column_aggregation() {
    let group_by = vec![colidx_expr(3)];
    let agg = vec![colidx_expr(0), colidx_expr(1), colidx_expr(2)];
    let ops = vec![AggOp::Count, AggOp::Max, AggOp::Avg];
    let t = run_aggregate(group_by, agg, ops);
    // Output:
    // A 1 1 4.0
    // E 1 1 3.0
    // G 4 2 4.25
    assert_eq!(t.len(), 3);
    assert_eq!(
        t[0],
        Tuple::new(vec![f_str("A"), f_int(1), f_int(1), f_decimal(4.0)])
    );
    assert_eq!(
        t[1],
        Tuple::new(vec![f_str("E"), f_int(1), f_int(1), f_decimal(3.0)])
    );
    assert_eq!(
        t[2],
        Tuple::new(vec![f_str("G"), f_int(4), f_int(2), f_decimal(4.25)])
    );
}

#[test]
fn aggregate_test_open() {
    let mut iter = get_agg_iter(vec![], vec![], vec![]);
    iter.open().unwrap();
}

#[test]
fn aggregate_test_close() {
    let mut iter = get_agg_iter(vec![], vec![], vec![]);
    iter.open().unwrap();
    iter.close().unwrap();
}

#[test]
fn aggregate_test_rewind() {
    let mut iter = get_agg_iter(vec![colidx_expr(2)], vec![colidx_expr(0)], vec![AggOp::Max]);
    iter.configure(true); // if we will rewind in the future, then we set will_rewind to true
    let t_before = execute_iter(&mut iter, true).unwrap();
    iter.rewind().unwrap();
    let t_after = execute_iter(&mut iter, true).unwrap();
    assert_eq!(t_before, t_after);
}

#[test]
fn aggregate_yields_nothing_when_it_may_be_rewound() {
    let mut iter = get_agg_iter(vec![colidx_expr(2)], vec![colidx_expr(0)], vec![AggOp::Max]);
    iter.configure(true);
    iter.open().unwrap();
    assert_eq!(None, iter.next().unwrap());
    iter.rewind().unwrap();
    assert_eq!(None, iter.next().unwrap());
}

#[test]
fn aggregate_rows_come_in_order_of_first_key() {
    let mut iter = get_agg_iter(vec![colidx_expr(3)], vec![colidx_expr(0)], vec![AggOp::Sum]);
    let t = execute_iter(&mut iter, false).unwrap();
    assert_eq!(
        vec![
            Tuple::new(vec![f_str("E"), f_int(1)]),
            Tuple::new(vec![f_str("G"), f_int(17)]),
            Tuple::new(vec![f_str("A"), f_int(3)]),
        ],
        t
    );
    // the rows are drawn again after a rewind, and nothing after the last
    assert_eq!(None, iter.next().unwrap());
    iter.rewind().unwrap();
    assert_eq!(t, drain(&mut iter).unwrap());
    iter.close().unwrap();
    // the same rows when it is opened again
    assert_eq!(t, execute_iter(&mut iter, false).unwrap());
}

#[test]
fn aggregate_without_rows() {
    let mut iter = Aggregate::new(
        vec![],
        vec![colidx_expr(0)],
        vec![AggOp::Count],
        TableSchema::new(vec![]),
        TupleIterator::new(vec![], test_schema()),
        mean_of_decimal,
    );
    iter.configure(false);
    // no row came, so there is no group and no row
    assert_eq!(Vec::<Tuple>::new(), execute_iter(&mut iter, false).unwrap());
}

#[test]
fn aggregate_skips_nulls() {
    let rows = vec![
        Tuple::new(vec![f_int(1), Field::Null]),
        Tuple::new(vec![f_int(1), f_int(5)]),
        Tuple::new(vec![f_int(2), Field::Null]),
    ];
    let mut iter = Aggregate::new(
        vec![colidx_expr(0)],
        vec![
            colidx_expr(1),
            colidx_expr(1),
            colidx_expr(1),
            colidx_expr(1),
            colidx_expr(1),
        ],
        vec![AggOp::Count, AggOp::Sum, AggOp::Min, AggOp::Max, AggOp::Avg],
        TableSchema::new(vec![]),
        TupleIterator::new(rows, test_schema()),
        mean_of_decimal,
    );
    iter.configure(false);
    let t = execute_iter(&mut iter, false).unwrap();
    assert_eq!(
        vec![
            Tuple::new(vec![
                f_int(1),
                f_int(1),
                f_int(5),
                f_int(5),
                f_int(5),
                f_decimal(5.0)
            ]),
            Tuple::new(vec![
                f_int(2),
                f_int(0),
                Field::Null,
                Field::Null,
                Field::Null,
                Field::Null
            ]),
        ],
        t
    );
}

#[test]
fn aggregate_sum_of_texts_fails_at_open() {
    let mut iter = get_agg_iter(vec![], vec![colidx_expr(3)], vec![AggOp::Sum]);
    assert!(matches!(iter.open(), Err(CrustyError::ExecutionError(_))));
}

#[test]
fn aggregate_avg_of_texts_fails_at_open() {
    let mut iter = get_agg_iter(vec![], vec![colidx_expr(3)], vec![AggOp::Avg]);
    assert!(matches!(iter.open(), Err(CrustyError::ExecutionError(_))));
}

#[test]
fn aggregate_avg_of_decimal_of_great_scale_fails() {
    let rows = vec![Tuple::new(vec![Field::Decimal(1, 309)])];
    let mut iter = Aggregate::new(
        vec![],
        vec![colidx_expr(0)],
        vec![AggOp::Avg],
        TableSchema::new(vec![]),
        TupleIterator::new(rows, test_schema()),
        mean_of_decimal,
    );
    iter.configure(false);
    assert!(matches!(iter.open(), Err(CrustyError::ExecutionError(_))));

    let rows = vec![Tuple::new(vec![Field::Decimal(15, 1)]), Tuple::new(vec![Field::Decimal(25, 1)])];
    let mut iter = Aggregate::new(
        vec![],
        vec![colidx_expr(0)],
        vec![AggOp::Avg],
        TableSchema::new(vec![]),
        TupleIterator::new(rows, test_schema()),
        mean_of_decimal,
    );
    iter.configure(false);
    assert_eq!(
        vec![Tuple::new(vec![f_decimal(2.0)])],
        execute_iter(&mut iter, false).unwrap()
    );
}

#[test]
fn merge_and_finalize_by_hand() {
    let mut iter = get_agg_iter(vec![colidx_expr(1)], vec![colidx_expr(0)], vec![AggOp::Sum]);
    for t in test_tuples() {
        iter.merge_tuple_into_group(&t).unwrap();
    }
    assert_eq!(2, iter.groups.len());
    assert_eq!(vec![f_int(1)], iter.groups[0].key);
    assert_eq!(vec![f_int(2)], iter.groups[1].key);
    iter.produce_results().unwrap();
    assert!(iter.groups.is_empty());
    assert_eq!(
        Some(vec![
            Tuple::new(vec![f_int(1), f_int(6)]),
            Tuple::new(vec![f_int(2), f_int(15)]),
        ]),
        iter.result_buffer
    );

    let row = TestAggregate::finalize_group(
        vec![f_str("k")],
        vec![
            AggregateState::Count(3),
            AggregateState::Avg {
                sum: Some(f_int(3)),
                count: 2,
            },
        ],
        &[AggOp::Count, AggOp::Avg],
        &(mean_of_decimal as fn(i128, u16, i64) -> Field),
    )
    .unwrap();
    assert_eq!(Tuple::new(vec![f_str("k"), f_int(3), f_decimal(1.5)]), row);
    // an accumulator of another aggregate
    let mismatch = TestAggregate::finalize_group(
        vec![],
        vec![AggregateState::Count(3)],
        &[AggOp::Sum],
        &(mean_of_decimal as fn(i128, u16, i64) -> Field),
    );
    assert!(matches!(mismatch, Err(CrustyError::CrustyError(_))));
}

fn get_join_predicate() -> (ByteCodeExpr, ByteCodeExpr) {
    // left(col(0) + col(1)) OP right(col(2))
    let mut left = ByteCodeExpr::new();
    left.add_code(ByteCodes::PushField as usize);
    left.add_code(0);
    left.add_code(ByteCodes::PushField as usize);
    left.add_code(1);
    left.add_code(ByteCodes::Add as usize);

    let mut right = ByteCodeExpr::new();
    right.add_code(ByteCodes::PushField as usize);
    right.add_code(2);

    (left, right)
}

fn get_join_iter(
    op: BooleanOp,
    left_expr: ByteCodeExpr,
    right_expr: ByteCodeExpr,
) -> NestedLoopJoin<TupleIterator, TupleIterator> {
    let mut iter = NestedLoopJoin::new(
        op,
        left_expr,
        right_expr,
        TupleIterator::new(test_tuples(), test_schema()),
        TupleIterator::new(test_tuples(), test_schema()),
        test_schema(),
    );
    iter.configure(false);
    iter
}

fn run_nested_loop_join(
    op: BooleanOp,
    left_expr: ByteCodeExpr,
    right_expr: ByteCodeExpr,
) -> Vec<Tuple> {
    let mut iter = get_join_iter(op, left_expr, right_expr);
    execute_iter(&mut iter, true).unwrap()
}

#[test]
fn test_eq_join() {
    // left(col(0) + col(1)) == right(col(2))

    // Output:
    // 2 1 3 G 1 1 3 E
    // 2 1 3 G 2 1 3 G
    // 3 1 4 A 3 1 4 A
    // 3 1 4 A 4 2 4 G
    let (left_expr, right_expr) = get_join_predicate();
    let t = run_nested_loop_join(BooleanOp::Eq, left_expr, right_expr);
    assert_eq!(t.len(), 4);
    assert_eq!(
        t[0],
        Tuple::new(vec![
            Field::Int(2),
            Field::Int(1),
            Field::Int(3),
            Field::String("G".to_string()),
            Field::Int(1),
            Field::Int(1),
            Field::Int(3),
            Field::String("E".to_string()),
        ])
    );
    assert_eq!(
        t[1],
        Tuple::new(vec![
            Field::Int(2),
            Field::Int(1),
            Field::Int(3),
            Field::String("G".to_string()),
            Field::Int(2),
            Field::Int(1),
            Field::Int(3),
            Field::String("G".to_string()),
        ])
    );
    assert_eq!(
        t[2],
        Tuple::new(vec![
            Field::Int(3),
            Field::Int(1),
            Field::Int(4),
            Field::String("A".to_string()),
            Field::Int(3),
            Field::Int(1),
            Field::Int(4),
            Field::String("A".to_string()),
        ])
    );
    assert_eq!(
        t[3],
        Tuple::new(vec![
            Field::Int(3),
            Field::Int(1),
            Field::Int(4),
            Field::String("A".to_string()),
            Field::Int(4),
            Field::Int(2),
            Field::Int(4),
            Field::String("G".to_string()),
        ])
    );
}

#[test]
fn nested_loop_join_test_open() {
    let (left_expr, right_expr) = get_join_predicate();
    let mut iter = get_join_iter(BooleanOp::Eq, left_expr, right_expr);
    iter.open().unwrap();
}

#[test]
fn nested_loop_join_test_close() {
    let (left_expr, right_expr) = get_join_predicate();
    let mut iter = get_join_iter(BooleanOp::Eq, left_expr, right_expr);
    iter.open().unwrap();
    iter.close().unwrap();
}

#[test]
fn nested_loop_join_test_rewind() {
    let (left_expr, right_expr) = get_join_predicate();
    let mut iter = get_join_iter(BooleanOp::Eq, left_expr, right_expr);
    iter.configure(true);
    let t_before = execute_iter(&mut iter, false).unwrap();
    iter.rewind().unwrap();
    let t_after = execute_iter(&mut iter, false).unwrap();
    assert_eq!(t_before, t_after);
}

#[test]
fn join_rows_come_in_order_of_left_then_right() {
    let (left_expr, right_expr) = get_join_predicate();
    let mut iter = get_join_iter(BooleanOp::Eq, left_expr, right_expr);
    iter.open().unwrap();
    let (first, second) = drain_twice(&mut iter).unwrap();
    assert_eq!(first, second);
    assert_eq!(4, first.len());
    let lefts: Vec<Field> = first.iter().map(|t| t.field_vals[0].clone()).collect();
    let rights: Vec<Field> = first.iter().map(|t| t.field_vals[4].clone()).collect();
    assert_eq!(vec![f_int(2), f_int(2), f_int(3), f_int(3)], lefts);
    assert_eq!(vec![f_int(1), f_int(2), f_int(3), f_int(4)], rights);
    assert_eq!(test_schema(), *iter.get_schema());
}

#[test]
fn join_with_other_comparisons() {
    let counts = [
        (BooleanOp::Eq, 4),
        (BooleanOp::Neq, 32),
        (BooleanOp::Lt, 12),
        (BooleanOp::Lte, 16),
        (BooleanOp::Gt, 20),
        (BooleanOp::Gte, 24),
    ];
    for (op, count) in counts {
        let (left_expr, right_expr) = get_join_predicate();
        assert_eq!(count, run_nested_loop_join(op, left_expr, right_expr).len());
    }
}

#[test]
fn join_of_aggregate_that_is_rewound_is_empty() {
    // the join tells its right input that it will be rewound, and an
    // aggregation that may be rewound yields nothing
    let right = get_agg_iter(vec![colidx_expr(2)], vec![], vec![]);
    let mut iter = NestedLoopJoin::new(
        BooleanOp::Eq,
        colidx_expr(2),
        colidx_expr(0),
        TupleIterator::new(test_tuples(), test_schema()),
        right,
        test_schema(),
    );
    iter.configure(false);
    assert_eq!(Vec::<Tuple>::new(), execute_iter(&mut iter, false).unwrap());

    let left = get_agg_iter(vec![colidx_expr(2)], vec![], vec![]);
    let mut iter = NestedLoopJoin::new(
        BooleanOp::Eq,
        colidx_expr(0),
        colidx_expr(2),
        left,
        TupleIterator::new(test_tuples(), test_schema()),
        test_schema(),
    );
    iter.configure(false);
    assert_eq!(6, execute_iter(&mut iter, false).unwrap().len());
}

#[test]
fn tuple_iterator_protocol() {
    let mut iter = TupleIterator::new(test_tuples(), test_schema());
    iter.configure(true);
    iter.open().unwrap();
    assert_eq!(Some(test_tuples()[0].clone()), iter.next().unwrap());
    assert_eq!(Some(test_tuples()[1].clone()), iter.next().unwrap());
    iter.rewind().unwrap();
    assert_eq!(test_tuples(), drain(&mut iter).unwrap());
    assert_eq!(None, iter.next().unwrap());
    iter.close().unwrap();
    assert_eq!(test_tuples(), execute_iter(&mut iter, false).unwrap());
}

#[test]
fn expressions_evaluate() {
    let row = Tuple::new(vec![f_int(2), f_int(40), f_str("x")]);
    assert_eq!(f_int(40), colidx_expr(1).eval(&row));
    assert_eq!(None, colidx_expr(3).try_eval(&row));
    assert!(ByteCodeExpr::new().is_empty());
    assert_eq!(None, ByteCodeExpr::new().try_eval(&row));

    let mut expr = ByteCodeExpr::new();
    let at = expr.add_literal(f_int(100));
    expr.add_code(ByteCodes::PushField as usize);
    expr.add_code(0);
    expr.add_code(ByteCodes::PushLit as usize);
    expr.add_code(at);
    expr.add_code(ByteCodes::Add as usize);
    assert_eq!(Some(f_int(102)), expr.try_eval(&row));

    // a sum that does not exist, an operand that is missing, and a code
    // that is no instruction
    let mut expr = ByteCodeExpr::new();
    expr.add_code(ByteCodes::PushField as usize);
    expr.add_code(0);
    expr.add_code(ByteCodes::PushField as usize);
    expr.add_code(2);
    expr.add_code(ByteCodes::Add as usize);
    assert_eq!(None, expr.try_eval(&row));
    let mut expr = ByteCodeExpr::new();
    expr.add_code(ByteCodes::PushField as usize);
    expr.add_code(0);
    expr.add_code(ByteCodes::Add as usize);
    assert_eq!(None, expr.try_eval(&row));
    let mut expr = ByteCodeExpr::new();
    expr.add_code(17);
    assert_eq!(None, expr.try_eval(&row));
}

#[test]
fn fields_add_and_compare() {
    assert_eq!(f_int(5), f_int(2).plus(&f_int(3)).unwrap());
    assert!(matches!(
        f_int(i64::MAX).plus(&f_int(1)),
        Err(CrustyError::ExecutionError(_))
    ));
    assert!(f_int(1).plus(&f_str("a")).is_err());
    assert!(f_str("a").plus(&f_str("a")).is_err());
    assert!(Field::Null.plus(&f_int(1)).is_err());
    // 1.5 + 0.25 = 1.75
    assert_eq!(
        Field::Decimal(175, 2),
        Field::Decimal(15, 1).plus(&Field::Decimal(25, 2)).unwrap()
    );
    assert_eq!(
        Field::Decimal(-5, 1),
        Field::Decimal(10, 1).plus(&Field::Decimal(-15, 1)).unwrap()
    );
    assert!(Field::Decimal(i128::MAX, 0)
        .plus(&Field::Decimal(0, 1))
        .is_err());
    assert!(Field::Decimal(i128::MAX, 0)
        .plus(&Field::Decimal(1, 0))
        .is_err());
    assert!(Field::Decimal(1, 0).plus(&Field::Decimal(1, 100)).is_err());

    let ordered = [
        Field::Null,
        f_int(-3),
        f_int(7),
        Field::Decimal(-1, 5),
        Field::Decimal(2, 0),
        Field::Decimal(2, 1),
        f_str(""),
        f_str("A"),
        f_str("AB"),
        f_str("B"),
        f_str("a"),
        f_str("é"),
    ];
    for i in 0..ordered.len() {
        for j in 0..ordered.len() {
            assert_eq!(i < j, ordered[i].before(&ordered[j]));
            assert_eq!(i == j, ordered[i].same(&ordered[j]));
            // the order in which rows are sorted is the same
            assert_eq!(ordered[i] < ordered[j], ordered[i].before(&ordered[j]));
            assert_eq!(i == j, compare_fields(BooleanOp::Eq, &ordered[i], &ordered[j]));
            assert_eq!(i != j, compare_fields(BooleanOp::Neq, &ordered[i], &ordered[j]));
            assert_eq!(i < j, compare_fields(BooleanOp::Lt, &ordered[i], &ordered[j]));
            assert_eq!(i <= j, compare_fields(BooleanOp::Lte, &ordered[i], &ordered[j]));
            assert_eq!(i > j, compare_fields(BooleanOp::Gt, &ordered[i], &ordered[j]));
            assert_eq!(i >= j, compare_fields(BooleanOp::Gte, &ordered[i], &ordered[j]));
        }
    }
    assert!(Field::Null.is_null());
    assert!(!f_int(0).is_null());
}

#[test]
fn tuples_compare_and_join() {
    let a = Tuple::new(vec![f_int(1), f_str("x")]);
    let b = Tuple::new(vec![f_int(2)]);
    assert_eq!(
        Tuple::new(vec![f_int(1), f_str("x"), f_int(2)]),
        a.concat(&b)
    );
    assert!(a.same(&a.clone()));
    assert!(!a.same(&b));
    assert!(!a.same(&Tuple::new(vec![f_int(1), f_str("y")])));
    assert_eq!(2, a.size());
    assert_eq!(Some(&f_str("x")), a.get_field(1));
    assert_eq!(None, a.get_field(2));
}

#[test]
#[should_panic]
fn test_merge_tuples_not_int() {
    let group_by = vec![];
    let agg = vec![colidx_expr(3)];
    let ops = vec![AggOp::Avg];
    let _ = run_aggregate(group_by, agg, ops);
}

#[test]
#[should_panic]
fn test_empty_predicate_join() {
    let left_expr = ByteCodeExpr::new();
    let right_expr = ByteCodeExpr::new();
    let _ = run_nested_loop_join(BooleanOp::Eq, left_expr, right_expr);
}

#[test]
#[should_panic]
fn nested_loop_join_test_next_not_open() {
    let (left_expr, right_expr) = get_join_predicate();
    let mut iter = get_join_iter(BooleanOp::Eq, left_expr, right_expr);
    let _ = iter.next();
}

#[test]
#[should_panic]
fn aggregate_test_next_not_open() {
    let mut iter = get_agg_iter(vec![], vec![], vec![]);
    let _ = iter.next();
}

#[test]
#[should_panic]
fn aggregate_test_rewind_not_open() {
    let mut iter = get_agg_iter(vec![], vec![], vec![]);
    let _ = iter.rewind();
}

#[test]
#[should_panic]
fn nested_loop_join_test_rewind_not_open() {
    let (left_expr, right_expr) = get_join_predicate();
    let mut iter = get_join_iter(BooleanOp::Eq, left_expr, right_expr);
    let _ = iter.rewind();
}
