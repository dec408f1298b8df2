use colexec::data::SortOptions;
use colexec::exprs::{
    clone_expr, convert_to_expr, expr_eq, expr_list_eq_any_order, expr_list_eq_strict_order,
    get_indices_of_exprs_strict, merge_vectors, reverse_order_bys, split_conjunction, Column,
    Operator, PhysicalExpr, PhysicalSortExpr, ScalarValue,
};

fn col(name: &str, index: usize) -> PhysicalExpr {
    PhysicalExpr::Column(Column::new(name, index))
}

#[test]
fn test_get_indices_of_exprs_strict() {
    let list1: Vec<PhysicalExpr> = vec![col("a", 0), col("b", 1), col("c", 2), col("d", 3)];
    let list2: Vec<PhysicalExpr> = vec![col("b", 1), col("c", 2), col("a", 0)];
    assert_eq!(get_indices_of_exprs_strict(&list1, &list2), vec![2, 0, 1]);
    assert_eq!(get_indices_of_exprs_strict(&list2, &list1), vec![1, 2, 0]);
}

#[test]
fn expr_list_eq_test() {
    let list1: Vec<PhysicalExpr> = vec![col("a", 0), col("a", 0), col("b", 1)];
    let list2: Vec<PhysicalExpr> = vec![col("b", 1), col("b", 1), col("a", 0)];
    assert!(!expr_list_eq_any_order(&list1, &list2));
    assert!(!expr_list_eq_any_order(&list2, &list1));

    assert!(!expr_list_eq_strict_order(&list1, &list2));
    assert!(!expr_list_eq_strict_order(&list2, &list1));

    let list3: Vec<PhysicalExpr> = vec![
        col("a", 0),
        col("b", 1),
        col("c", 2),
        col("a", 0),
        col("b", 1),
    ];
    let list4: Vec<PhysicalExpr> = vec![
        col("b", 1),
        col("b", 1),
        col("a", 0),
        col("c", 2),
        col("a", 0),
    ];
    assert!(expr_list_eq_any_order(&list3, &list4));
    assert!(expr_list_eq_any_order(&list4, &list3));
    assert!(expr_list_eq_any_order(&list3, &list3));
    assert!(expr_list_eq_any_order(&list4, &list4));

    assert!(!expr_list_eq_strict_order(&list3, &list4));
    assert!(!expr_list_eq_strict_order(&list4, &list3));
    assert!(expr_list_eq_any_order(&list3, &list3));
    assert!(expr_list_eq_any_order(&list4, &list4));
}

#[test]
fn test_convert_to_expr() {
    let sort_expr = vec![PhysicalSortExpr {
        expr: col("a", 0),
        options: SortOptions::default(),
    }];
    let exprs = convert_to_expr(&sort_expr);
    assert!(exprs[0].eq(&sort_expr[0].expr));
}

#[test]
fn split_conjunction_splits_nested_ands() {
    let a = col("a1", 0);
    let b = col("b1", 1);
    let c = col("c1", 2);
    let pred = PhysicalExpr::Binary {
        left: Box::new(PhysicalExpr::Binary {
            left: Box::new(clone_expr(&a)),
            op: Operator::And,
            right: Box::new(clone_expr(&b)),
        }),
        op: Operator::And,
        right: Box::new(clone_expr(&c)),
    };
    let parts = split_conjunction(&pred);
    assert_eq!(parts.len(), 3);
    assert!(expr_eq(parts[0], &a));
    assert!(expr_eq(parts[1], &b));
    assert!(expr_eq(parts[2], &c));
}

#[test]
fn split_conjunction_keeps_disjunction_whole() {
    let pred = PhysicalExpr::Binary {
        left: Box::new(col("a", 0)),
        op: Operator::Or,
        right: Box::new(col("b", 1)),
    };
    let parts = split_conjunction(&pred);
    assert_eq!(parts.len(), 1);
    assert!(expr_eq(parts[0], &pred));
}

#[test]
fn reverse_order_bys_flips_both_flags() {
    let order = vec![PhysicalSortExpr {
        expr: col("a", 0),
        options: SortOptions { descending: false, nulls_first: true },
    }];
    let reversed = reverse_order_bys(&order);
    assert_eq!(reversed.len(), 1);
    assert!(reversed[0].options.descending);
    assert!(!reversed[0].options.nulls_first);
    assert!(expr_eq(&reversed[0].expr, &order[0].expr));
}

#[test]
fn merge_vectors_drops_duplicates() {
    let opts = SortOptions::default();
    let left = vec![
        PhysicalSortExpr { expr: col("a", 0), options: opts },
        PhysicalSortExpr { expr: col("b", 1), options: opts },
    ];
    let right = vec![
        PhysicalSortExpr { expr: col("b", 1), options: opts },
        PhysicalSortExpr { expr: col("c", 2), options: opts },
    ];
    let merged = merge_vectors(&left, &right);
    assert_eq!(merged.len(), 3);
    assert!(expr_eq(&merged[0].expr, &left[0].expr));
    assert!(expr_eq(&merged[1].expr, &left[1].expr));
    assert!(expr_eq(&merged[2].expr, &right[1].expr));
}

#[test]
fn scalar_literals_compare_by_value() {
    let one = PhysicalExpr::Literal(ScalarValue::Int64(Some(1)));
    let one_too = PhysicalExpr::Literal(ScalarValue::Int64(Some(1)));
    let two = PhysicalExpr::Literal(ScalarValue::Int64(Some(2)));
    let nul = PhysicalExpr::Literal(ScalarValue::Int64(None));
    assert!(expr_eq(&one, &one_too));
    assert!(!expr_eq(&one, &two));
    assert!(!expr_eq(&one, &nul));
}

use colexec::data::DataType;
use colexec::exprs::{
    collect_columns, map_columns_before_projection, reassign_predicate_columns, ExprTreeNode,
    Field, ProjectionMapping, Schema,
};

#[test]
fn test_collect_columns() {
    let expr1 = col("col1", 2);
    let collected = collect_columns(&expr1);
    assert_eq!(collected.len(), 1);
    assert!(collected[0] == Column::new("col1", 2));

    let expr2 = col("col2", 5);
    let collected = collect_columns(&expr2);
    assert_eq!(collected.len(), 1);
    assert!(collected[0] == Column::new("col2", 5));

    let expr3 = PhysicalExpr::Binary {
        left: Box::new(clone_expr(&expr1)),
        op: Operator::Plus,
        right: Box::new(clone_expr(&expr2)),
    };
    let collected = collect_columns(&expr3);
    assert_eq!(collected.len(), 2);
    assert!(collected[0] == Column::new("col1", 2));
    assert!(collected[1] == Column::new("col2", 5));
}

#[test]
fn test_reassign_predicate_columns_in_list() {
    let schema_small = Schema {
        fields: vec![Field {
            name: "id".to_string(),
            data_type: DataType::Bytes,
            nullable: true,
        }],
    };
    let pred = PhysicalExpr::InList {
        expr: Box::new(col("id", 1)),
        list: vec![ScalarValue::Utf8(Some("2".to_string()))],
        negated: false,
    };
    let actual = reassign_predicate_columns(&pred, &schema_small, false).unwrap();
    let expected = PhysicalExpr::InList {
        expr: Box::new(col("id", 0)),
        list: vec![ScalarValue::Utf8(Some("2".to_string()))],
        negated: false,
    };
    assert!(expr_eq(&actual, &expected));

    // a miss fails unless misses are ignored
    let missing = col("absent", 3);
    assert!(reassign_predicate_columns(&missing, &schema_small, false).is_err());
    let ignored = reassign_predicate_columns(&missing, &schema_small, true).unwrap();
    assert!(expr_eq(&ignored, &col("absent", usize::MAX)));
}

#[test]
fn map_columns_follows_the_projection() {
    let proj = vec![
        (col("b", 1), "b_out".to_string()),
        (col("a", 0), "a_out".to_string()),
    ];
    // requirements name the projection's output columns
    let required = vec![col("b_out", 0), col("a_out", 1), col("c", 2)];
    let mapped = map_columns_before_projection(&required, &proj);
    assert_eq!(mapped.len(), 2);
    assert!(expr_eq(&mapped[0], &col("b", 1)));
    assert!(expr_eq(&mapped[1], &col("a", 0)));
}

#[test]
fn expr_tree_node_children_follow_the_expression() {
    let expr = PhysicalExpr::Binary {
        left: Box::new(col("a", 0)),
        op: Operator::Plus,
        right: Box::new(col("b", 1)),
    };
    let node: ExprTreeNode<usize> = ExprTreeNode::new(clone_expr(&expr));
    assert!(expr_eq(node.expression(), &expr));
    let children = node.children();
    assert_eq!(children.len(), 2);
    assert!(expr_eq(&children[0].expr, &col("a", 0)));
    assert!(expr_eq(&children[1].expr, &col("b", 1)));
}

#[test]
fn projection_mapping_pairs_sources_with_outputs() {
    let mapping = ProjectionMapping::try_new(vec![
        (col("c", 2), "c_new".to_string()),
        (col("b", 1), "b_new".to_string()),
    ]);
    let pairs = mapping.iter();
    assert_eq!(pairs.len(), 2);
    assert!(expr_eq(&pairs[0].0, &col("c", 2)));
    assert!(expr_eq(&pairs[0].1, &col("c_new", 0)));
    assert!(expr_eq(&pairs[1].0, &col("b", 1)));
    assert!(expr_eq(&pairs[1].1, &col("b_new", 1)));
}
