use colexec::exprs::{scalar_eq, Column, Operator, PhysicalExpr, ScalarValue};
use colexec::guarantee::{Guarantee, LiteralGuarantee};

fn col(name: &str) -> PhysicalExpr {
    let index = if name == "a" { 0 } else { 1 };
    PhysicalExpr::Column(Column::new(name, index))
}

fn lit_s(v: &str) -> PhysicalExpr {
    PhysicalExpr::Literal(ScalarValue::Utf8(Some(v.to_string())))
}

fn lit_i(v: i64) -> PhysicalExpr {
    PhysicalExpr::Literal(ScalarValue::Int64(Some(v)))
}

fn bin(left: PhysicalExpr, op: Operator, right: PhysicalExpr) -> PhysicalExpr {
    PhysicalExpr::Binary {
        left: Box::new(left),
        op,
        right: Box::new(right),
    }
}

fn eq(l: PhysicalExpr, r: PhysicalExpr) -> PhysicalExpr {
    bin(l, Operator::Eq, r)
}

fn not_eq(l: PhysicalExpr, r: PhysicalExpr) -> PhysicalExpr {
    bin(l, Operator::NotEq, r)
}

fn and(l: PhysicalExpr, r: PhysicalExpr) -> PhysicalExpr {
    bin(l, Operator::And, r)
}

fn or(l: PhysicalExpr, r: PhysicalExpr) -> PhysicalExpr {
    bin(l, Operator::Or, r)
}

fn gt(l: PhysicalExpr, r: PhysicalExpr) -> PhysicalExpr {
    bin(l, Operator::Gt, r)
}

fn in_guarantee(column: &str, literals: Vec<ScalarValue>) -> (String, Guarantee, Vec<ScalarValue>) {
    (column.to_string(), Guarantee::In, literals)
}

fn not_in_guarantee(
    column: &str,
    literals: Vec<ScalarValue>,
) -> (String, Guarantee, Vec<ScalarValue>) {
    (column.to_string(), Guarantee::NotIn, literals)
}

fn strs(vals: Vec<&str>) -> Vec<ScalarValue> {
    vals.into_iter()
        .map(|v| ScalarValue::Utf8(Some(v.to_string())))
        .collect()
}

fn ints(vals: Vec<i64>) -> Vec<ScalarValue> {
    vals.into_iter()
        .map(|v| ScalarValue::Int64(Some(v)))
        .collect()
}

/// The guarantee's literal set equals the expected one, in any order.
fn same_literals(actual: &[ScalarValue], expected: &[ScalarValue]) -> bool {
    actual.len() == expected.len()
        && expected
            .iter()
            .all(|e| actual.iter().any(|a| scalar_eq(a, e)))
}

fn test_analyze(expr: PhysicalExpr, expected: Vec<(String, Guarantee, Vec<ScalarValue>)>) {
    let actual = LiteralGuarantee::analyze(&expr);
    assert_eq!(actual.len(), expected.len(), "guarantee count");
    for (got, want) in actual.iter().zip(expected.iter()) {
        assert_eq!(got.column.name, want.0);
        assert_eq!(got.guarantee, want.1);
        assert!(same_literals(&got.literals, &want.2));
    }
}

#[test]
fn test_literal() {
    // a single literal offers no guarantee
    test_analyze(lit_i(1), vec![])
}

#[test]
fn test_single() {
    // a = "foo"
    test_analyze(
        eq(col("a"), lit_s("foo")),
        vec![in_guarantee("a", strs(vec!["foo"]))],
    );
    // "foo" = a
    test_analyze(
        eq(lit_s("foo"), col("a")),
        vec![in_guarantee("a", strs(vec!["foo"]))],
    );
    // a != "foo"
    test_analyze(
        not_eq(col("a"), lit_s("foo")),
        vec![not_in_guarantee("a", strs(vec!["foo"]))],
    );
    // a != "foo"
    test_analyze(
        not_eq(lit_s("foo"), col("a")),
        vec![not_in_guarantee("a", strs(vec!["foo"]))],
    );
}

#[test]
fn test_conjunction() {
    // a = "foo" AND b = 1
    test_analyze(
        and(eq(col("a"), lit_s("foo")), eq(col("b"), lit_i(1))),
        vec![
            in_guarantee("a", strs(vec!["foo"])),
            in_guarantee("b", ints(vec![1])),
        ],
    );
    // a != "foo" AND b != 1
    test_analyze(
        and(not_eq(col("a"), lit_s("foo")), not_eq(col("b"), lit_i(1))),
        vec![
            not_in_guarantee("a", strs(vec!["foo"])),
            not_in_guarantee("b", ints(vec![1])),
        ],
    );
    // a = "foo" AND a = "bar": impossible, no guarantee survives
    test_analyze(
        and(eq(col("a"), lit_s("foo")), eq(col("a"), lit_s("bar"))),
        vec![],
    );
    // a = "foo" AND a != "bar"
    test_analyze(
        and(eq(col("a"), lit_s("foo")), not_eq(col("a"), lit_s("bar"))),
        vec![
            in_guarantee("a", strs(vec!["foo"])),
            not_in_guarantee("a", strs(vec!["bar"])),
        ],
    );
    // a != "foo" AND a != "bar"
    test_analyze(
        and(not_eq(col("a"), lit_s("foo")), not_eq(col("a"), lit_s("bar"))),
        vec![not_in_guarantee("a", strs(vec!["foo", "bar"]))],
    );
    // a != "foo" AND a != "bar" AND a != "baz"
    test_analyze(
        and(
            and(not_eq(col("a"), lit_s("foo")), not_eq(col("a"), lit_s("bar"))),
            not_eq(col("a"), lit_s("baz")),
        ),
        vec![not_in_guarantee("a", strs(vec!["foo", "bar", "baz"]))],
    );
    // a = "foo" AND a = "foo"
    test_analyze(
        and(eq(col("a"), lit_s("foo")), eq(col("a"), lit_s("foo"))),
        vec![in_guarantee("a", strs(vec!["foo"]))],
    );
    // b > 5 AND b = 10: only the equality guarantees anything
    test_analyze(
        and(gt(col("b"), lit_i(5)), eq(col("b"), lit_i(10))),
        vec![in_guarantee("b", ints(vec![10]))],
    );
    // a != "foo" AND (a != "bar" OR a != "baz"): only the plain conjunct counts
    test_analyze(
        and(
            not_eq(col("a"), lit_s("foo")),
            or(not_eq(col("a"), lit_s("bar")), not_eq(col("a"), lit_s("baz"))),
        ),
        vec![not_in_guarantee("a", strs(vec!["foo"]))],
    );
}

#[test]
fn test_disjunction() {
    // a = "foo" OR b = 1: no single-column guarantee
    test_analyze(or(eq(col("a"), lit_s("foo")), eq(col("b"), lit_i(1))), vec![]);
    // a != "foo" OR b != 1: no single-column guarantee
    test_analyze(
        or(not_eq(col("a"), lit_s("foo")), not_eq(col("b"), lit_i(1))),
        vec![],
    );
    // a = "foo" OR a = "bar"
    test_analyze(
        or(eq(col("a"), lit_s("foo")), eq(col("a"), lit_s("bar"))),
        vec![in_guarantee("a", strs(vec!["foo", "bar"]))],
    );
    // a = "foo" OR a = "foo"
    test_analyze(
        or(eq(col("a"), lit_s("foo")), eq(col("a"), lit_s("foo"))),
        vec![in_guarantee("a", strs(vec!["foo"]))],
    );
    // a != "foo" OR a != "bar": nothing representable
    test_analyze(
        or(not_eq(col("a"), lit_s("foo")), not_eq(col("a"), lit_s("bar"))),
        vec![],
    );
    // a = "foo" OR a = "bar" OR a = "baz"
    test_analyze(
        or(
            or(eq(col("a"), lit_s("foo")), eq(col("a"), lit_s("bar"))),
            eq(col("a"), lit_s("baz")),
        ),
        vec![in_guarantee("a", strs(vec!["foo", "bar", "baz"]))],
    );
    // (a = "foo" OR a = "bar") AND (a = "baz"): contradictory, nothing kept
    test_analyze(
        and(
            or(eq(col("a"), lit_s("foo")), eq(col("a"), lit_s("bar"))),
            eq(col("a"), lit_s("baz")),
        ),
        vec![],
    );
    // (a = "foo" OR a = "bar") AND (b = 1)
    test_analyze(
        and(
            or(eq(col("a"), lit_s("foo")), eq(col("a"), lit_s("bar"))),
            eq(col("b"), lit_i(1)),
        ),
        vec![
            in_guarantee("a", strs(vec!["foo", "bar"])),
            in_guarantee("b", ints(vec![1])),
        ],
    );
    // (a = "foo" OR a = "bar") OR (b = 1): nothing representable
    test_analyze(
        or(
            or(eq(col("a"), lit_s("foo")), eq(col("a"), lit_s("bar"))),
            eq(col("b"), lit_i(1)),
        ),
        vec![],
    );
}
