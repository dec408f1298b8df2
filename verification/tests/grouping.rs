use colexec::aggregate::{AggKind, AggregateMode, GroupedHashAggregate};
use colexec::data::{SortField, SortOptions};
use colexec::encoder::encode_rows;
use colexec::builders::{
    ByteGroupValueBuilder, ByteGroupValueViewBuilder, OutputType, PrimitiveGroupValueBuilder,
};
use colexec::data::{BoolColumn, BytesColumn, Column, DataType, PrimitiveColumn, RecordBatch};
use colexec::error::ExecError;

fn bytes_col(values: Vec<Option<&str>>) -> BytesColumn {
    BytesColumn::from_options(
        values
            .into_iter()
            .map(|v| v.map(|s| s.as_bytes().to_vec()))
            .collect(),
    )
}

fn kv_batch(keys: Vec<Option<&str>>, values: Vec<Option<i64>>) -> RecordBatch {
    let n = values.len();
    let key_col = Column::Bytes(bytes_col(keys));
    let val_col = Column::Int64(PrimitiveColumn::from_options(values));
    RecordBatch::try_new(
        vec![DataType::Bytes, DataType::Int64],
        vec![key_col, val_col],
        n,
    )
    .unwrap()
}

fn kvf_batch(
    keys: Vec<Option<&str>>,
    values: Vec<Option<i64>>,
    flags: Vec<Option<bool>>,
) -> RecordBatch {
    let n = values.len();
    let key_col = Column::Bytes(bytes_col(keys));
    let val_col = Column::Int64(PrimitiveColumn::from_options(values));
    let flag_col = Column::Bool(BoolColumn::from_options(flags));
    RecordBatch::try_new(
        vec![DataType::Bytes, DataType::Int64, DataType::Bool],
        vec![key_col, val_col, flag_col],
        n,
    )
    .unwrap()
}

fn collect_pairs(batch: &RecordBatch) -> Vec<(Option<String>, Option<i64>)> {
    let mut out = Vec::new();
    for i in 0..batch.num_rows {
        let key = match &batch.columns[0] {
            Column::Bytes(bc) => {
                if bc.valid[i] {
                    Some(String::from_utf8(bc.values[i].clone()).unwrap())
                } else {
                    None
                }
            }
            _ => panic!("expected a byte-string key column"),
        };
        let val = match &batch.columns[1] {
            Column::Int64(pc) => {
                if pc.valid[i] {
                    Some(pc.values[i])
                } else {
                    None
                }
            }
            _ => panic!("expected an integer value column"),
        };
        out.push((key, val));
    }
    out
}

/// SELECT z, SUM(y) GROUP BY z over two batches with nullable keys: the
/// null keys form one group, distinct from every non-null group.
#[test]
fn aggregate_nullable_keys_sum() {
    let mut agg = GroupedHashAggregate::try_new(
        AggregateMode::Single,
        vec![DataType::Bytes, DataType::Int64],
        vec![0],
        vec![AggKind::Sum],
        vec![1],
        vec![None],
        1024,
        usize::MAX,
    )
    .unwrap();
    agg.group_aggregate_batch(&kv_batch(
        vec![Some("A"), None, Some("A"), Some("B")],
        vec![Some(1), Some(2), Some(3), Some(4)],
    ))
    .unwrap();
    agg.group_aggregate_batch(&kv_batch(
        vec![None, Some("A"), Some("B"), Some("B")],
        vec![Some(5), Some(6), Some(7), Some(8)],
    ))
    .unwrap();
    agg.input_done();
    let batch = agg.next_batch().unwrap();
    let mut pairs = collect_pairs(&batch);
    pairs.sort();
    let mut expected = vec![
        (Some("A".to_string()), Some(10)),
        (None, Some(7)),
        (Some("B".to_string()), Some(19)),
    ];
    expected.sort();
    assert_eq!(pairs, expected);
}

/// No input at all: one empty batch with the declared output schema.
#[test]
fn aggregate_empty_input_emits_empty_batch() {
    let mut agg = GroupedHashAggregate::try_new(
        AggregateMode::Single,
        vec![DataType::Bytes, DataType::Int64],
        vec![0],
        vec![AggKind::Sum],
        vec![1],
        vec![None],
        1024,
        usize::MAX,
    )
    .unwrap();
    agg.input_done();
    let batch = agg.next_batch().unwrap();
    assert_eq!(batch.num_rows, 0);
    assert_eq!(batch.schema, vec![DataType::Bytes, DataType::Int64]);
    assert!(agg.next_batch().is_none());
}

/// A pool of 256 bytes cannot hold a kilobyte of group-builder state:
/// the push reports resource exhaustion and the stream ends.
#[test]
fn aggregate_memory_failure() {
    let mut agg = GroupedHashAggregate::try_new(
        AggregateMode::Single,
        vec![DataType::Bytes, DataType::Int64],
        vec![0],
        vec![AggKind::Sum],
        vec![1],
        vec![None],
        1024,
        256,
    )
    .unwrap();
    let long: String = "x".repeat(200);
    let keys: Vec<String> = (0..8).map(|i| format!("{}{}", long, i)).collect();
    let r = agg.group_aggregate_batch(&kv_batch(
        keys.iter().map(|k| Some(k.as_str())).collect(),
        (0..8).map(|v| Some(v)).collect(),
    ));
    assert!(matches!(r, Err(ExecError::ResourcesExhausted)));
    // after the failure the stream has ended
    assert!(agg.next_batch().is_none());
}

/// Counting counts the non-null arguments per group.
#[test]
fn aggregate_count_skips_nulls() {
    let mut agg = GroupedHashAggregate::try_new(
        AggregateMode::Single,
        vec![DataType::Bytes, DataType::Int64],
        vec![0],
        vec![AggKind::Count],
        vec![1],
        vec![None],
        1024,
        usize::MAX,
    )
    .unwrap();
    agg.group_aggregate_batch(&kv_batch(
        vec![Some("A"), Some("A"), Some("B")],
        vec![Some(1), None, Some(3)],
    ))
    .unwrap();
    agg.input_done();
    let batch = agg.next_batch().unwrap();
    let mut pairs = collect_pairs(&batch);
    pairs.sort();
    let mut expected = vec![
        (Some("A".to_string()), Some(1)),
        (Some("B".to_string()), Some(1)),
    ];
    expected.sort();
    assert_eq!(pairs, expected);
}

/// A per-aggregate filter: only rows whose filter cell is true feed the
/// sum; false and null filter cells leave their row out.
#[test]
fn aggregate_sum_with_filter() {
    let mut agg = GroupedHashAggregate::try_new(
        AggregateMode::Single,
        vec![DataType::Bytes, DataType::Int64, DataType::Bool],
        vec![0],
        vec![AggKind::Sum],
        vec![1],
        vec![Some(2)],
        1024,
        usize::MAX,
    )
    .unwrap();
    agg.group_aggregate_batch(&kvf_batch(
        vec![Some("A"), Some("A"), Some("A"), Some("B"), Some("B")],
        vec![Some(1), Some(2), Some(4), Some(8), Some(16)],
        vec![Some(true), Some(false), Some(true), None, Some(true)],
    ))
    .unwrap();
    agg.input_done();
    let batch = agg.next_batch().unwrap();
    let mut pairs = collect_pairs(&batch);
    pairs.sort();
    let mut expected = vec![
        (Some("A".to_string()), Some(5)),
        (Some("B".to_string()), Some(16)),
    ];
    expected.sort();
    assert_eq!(pairs, expected);
}

/// A filtered group whose every row is filtered out still appears, with
/// a null sum: the filter selects rows, not groups.
#[test]
fn aggregate_filter_keeps_empty_group() {
    let mut agg = GroupedHashAggregate::try_new(
        AggregateMode::Single,
        vec![DataType::Bytes, DataType::Int64, DataType::Bool],
        vec![0],
        vec![AggKind::Sum],
        vec![1],
        vec![Some(2)],
        1024,
        usize::MAX,
    )
    .unwrap();
    agg.group_aggregate_batch(&kvf_batch(
        vec![Some("A"), Some("B")],
        vec![Some(3), Some(5)],
        vec![Some(true), Some(false)],
    ))
    .unwrap();
    agg.input_done();
    let batch = agg.next_batch().unwrap();
    let mut pairs = collect_pairs(&batch);
    pairs.sort();
    let mut expected = vec![(Some("A".to_string()), Some(3)), (Some("B".to_string()), None)];
    expected.sort();
    assert_eq!(pairs, expected);
}

/// A filter column that is not boolean is rejected when the operator is
/// built.
#[test]
fn aggregate_rejects_non_boolean_filter() {
    let r = GroupedHashAggregate::try_new(
        AggregateMode::Single,
        vec![DataType::Bytes, DataType::Int64],
        vec![0],
        vec![AggKind::Sum],
        vec![1],
        vec![Some(1)],
        1024,
        usize::MAX,
    );
    assert!(matches!(r, Err(ExecError::InvalidInput)));
}

/// A sum that leaves the 64-bit range fails with an overflow error.
#[test]
fn aggregate_sum_overflow_is_an_error() {
    let mut agg = GroupedHashAggregate::try_new(
        AggregateMode::Single,
        vec![DataType::Bytes, DataType::Int64],
        vec![0],
        vec![AggKind::Sum],
        vec![1],
        vec![None],
        1024,
        usize::MAX,
    )
    .unwrap();
    let r = agg.group_aggregate_batch(&kv_batch(
        vec![Some("A"), Some("A")],
        vec![Some(i64::MAX), Some(1)],
    ));
    assert!(matches!(r, Err(ExecError::Overflow)));
}

#[test]
fn aggregate_rejects_bad_argument_column() {
    let r = GroupedHashAggregate::try_new(
        AggregateMode::Single,
        vec![DataType::Bytes, DataType::Int64],
        vec![0],
        vec![AggKind::Sum],
        vec![0],
        vec![None],
        1024,
        usize::MAX,
    );
    assert!(matches!(r, Err(ExecError::InvalidInput)));
}

#[test]
fn test_nullable_primitive_equal_to() {
    // exist/input null combinations, then value comparison
    let mut builder = PrimitiveGroupValueBuilder::new(true);
    let builder_array =
        PrimitiveColumn::from_options(vec![None, None, None, Some(1), Some(2), Some(3)]);
    for row in 0..6 {
        builder.append_val(&builder_array, row);
    }
    let input_array =
        PrimitiveColumn::from_options(vec![Some(1), None, None, None, Some(1), Some(3)]);
    assert!(!builder.equal_to(0, &input_array, 0));
    assert!(builder.equal_to(1, &input_array, 1));
    assert!(builder.equal_to(2, &input_array, 2));
    assert!(!builder.equal_to(3, &input_array, 3));
    assert!(!builder.equal_to(4, &input_array, 4));
    assert!(builder.equal_to(5, &input_array, 5));
}

#[test]
fn test_not_nullable_primitive_equal_to() {
    let mut builder = PrimitiveGroupValueBuilder::new(false);
    let builder_array = PrimitiveColumn::from_options(vec![Some(0), Some(1)]);
    builder.append_val(&builder_array, 0);
    builder.append_val(&builder_array, 1);
    let input_array = PrimitiveColumn::from_options(vec![Some(0), Some(2)]);
    assert!(builder.equal_to(0, &input_array, 0));
    assert!(!builder.equal_to(1, &input_array, 1));
}

#[test]
fn test_byte_array_equal_to() {
    let mut builder = ByteGroupValueBuilder::new(OutputType::Utf8);
    let builder_array = bytes_col(vec![None, None, None, Some("foo"), Some("bar"), Some("baz")]);
    for row in 0..6 {
        builder.append_val(&builder_array, row);
    }
    let input_array = bytes_col(vec![Some("foo"), None, None, None, Some("foo"), Some("baz")]);
    assert!(!builder.equal_to(0, &input_array, 0));
    assert!(builder.equal_to(1, &input_array, 1));
    assert!(builder.equal_to(2, &input_array, 2));
    assert!(!builder.equal_to(3, &input_array, 3));
    assert!(!builder.equal_to(4, &input_array, 4));
    assert!(builder.equal_to(5, &input_array, 5));
}

#[test]
fn test_take_n() {
    let mut builder = ByteGroupValueBuilder::new(OutputType::Utf8);
    let array = bytes_col(vec![Some("a"), None]);
    // a, null, null
    builder.append_val(&array, 0);
    builder.append_val(&array, 1);
    builder.append_val(&array, 1);

    // (a, null) leaves: null
    let output = builder.take_n(2);
    match &output {
        Column::Bytes(bc) => {
            assert_eq!(bc.valid, vec![true, false]);
            assert_eq!(bc.values[0], b"a".to_vec());
        }
        _ => panic!("expected a byte-string column"),
    }
    assert_eq!(builder.len(), 1);

    // null, a, null, a
    builder.append_val(&array, 0);
    builder.append_val(&array, 1);
    builder.append_val(&array, 0);

    // (null, a) leaves: (null, a)
    let output = builder.take_n(2);
    match &output {
        Column::Bytes(bc) => {
            assert_eq!(bc.valid, vec![false, true]);
            assert_eq!(bc.values[1], b"a".to_vec());
        }
        _ => panic!("expected a byte-string column"),
    }

    let array = bytes_col(vec![Some("a"), None, Some("longstringfortest")]);
    // null, a, longstringfortest, null, null
    builder.append_val(&array, 2);
    builder.append_val(&array, 1);
    builder.append_val(&array, 1);

    // (null, a, longstringfortest, null) leaves: (null)
    let output = builder.take_n(4);
    match &output {
        Column::Bytes(bc) => {
            assert_eq!(bc.valid, vec![false, true, true, false]);
            assert_eq!(bc.values[1], b"a".to_vec());
            assert_eq!(bc.values[2], b"longstringfortest".to_vec());
        }
        _ => panic!("expected a byte-string column"),
    }
    assert_eq!(builder.len(), 1);
}

/// Encoded rows order like the values they encode, over every option mix.
#[test]
fn encoded_rows_follow_value_order() {
    let col = Column::Int64(PrimitiveColumn::from_options(vec![
        Some(-5),
        Some(3),
        None,
        Some(3),
    ]));
    let cols = vec![col];
    let fields = vec![SortField {
        data_type: DataType::Int64,
        options: SortOptions { descending: false, nulls_first: true },
    }];
    let rows = encode_rows(&cols, &fields, 4).unwrap();
    assert!(rows[2] < rows[0], "a null sorts first");
    assert!(rows[0] < rows[1], "-5 sorts before 3");
    assert_eq!(rows[1], rows[3], "equal values encode equally");

    let fields_desc = vec![SortField {
        data_type: DataType::Int64,
        options: SortOptions { descending: true, nulls_first: false },
    }];
    let rows = encode_rows(&cols, &fields_desc, 4).unwrap();
    assert!(rows[1] < rows[0], "descending reverses the value order");
    assert!(rows[0] < rows[2], "a null sorts last");
}

#[test]
fn encoder_rejects_type_mismatch() {
    let col = Column::Int64(PrimitiveColumn::from_options(vec![Some(1)]));
    let cols = vec![col];
    let fields = vec![SortField {
        data_type: DataType::Bytes,
        options: SortOptions::default(),
    }];
    let r = encode_rows(&cols, &fields, 1);
    assert!(matches!(r, Err(ExecError::EncoderError)));
}

fn view_values(builder: &ByteGroupValueViewBuilder) -> Vec<Option<Vec<u8>>> {
    let mut out = Vec::new();
    for i in 0..builder.len() {
        if builder.nulls[i] {
            out.push(None);
        } else {
            out.push(Some(builder.value(i)));
        }
    }
    out
}

fn column_values(col: &Column) -> Vec<Option<Vec<u8>>> {
    match col {
        Column::Bytes(bc) => (0..bc.values.len())
            .map(|i| {
                if bc.valid[i] {
                    Some(bc.values[i].clone())
                } else {
                    None
                }
            })
            .collect(),
        _ => panic!("expected a byte-string column"),
    }
}

fn opt_bytes(values: Vec<Option<&str>>) -> Vec<Option<Vec<u8>>> {
    values
        .into_iter()
        .map(|v| v.map(|s| s.as_bytes().to_vec()))
        .collect()
}

#[test]
fn test_byte_view_append_val() {
    let mut builder = ByteGroupValueViewBuilder::new(OutputType::Utf8).with_max_block_size(60);
    let input = vec![
        Some("this string is quite long"), // in block 0
        Some("foo"),
        None,
        Some("bar"),
        Some("this string is also quite long"), // block 0
        Some("this string is quite long"),      // block 1
        Some("bar"),
    ];
    let builder_array = bytes_col(input.clone());
    for row in 0..7 {
        builder.append_val(&builder_array, row);
    }
    // two blocks hold all the spilled data
    assert_eq!(builder.completed.len(), 1);
    assert!(!builder.in_progress.is_empty());
    assert_eq!(view_values(&builder), opt_bytes(input.clone()));
    let output = builder.build();
    assert_eq!(column_values(&output), opt_bytes(input));
}

#[test]
fn test_byte_view_equal_to() {
    let mut builder = ByteGroupValueViewBuilder::new(OutputType::Utf8);
    let builder_array = bytes_col(vec![
        None,
        None,
        None,
        Some("foo"),
        Some("bar"),
        Some("this string is quite long"),
        Some("baz"),
    ]);
    for row in 0..7 {
        builder.append_val(&builder_array, row);
    }
    let input_array = bytes_col(vec![
        Some("foo"),
        None,
        None,
        None,
        None,
        Some("foo"),
        Some("baz"),
    ]);
    assert!(!builder.equal_to(0, &input_array, 0));
    assert!(builder.equal_to(1, &input_array, 1));
    assert!(builder.equal_to(2, &input_array, 2));
    assert!(!builder.equal_to(3, &input_array, 3));
    assert!(!builder.equal_to(4, &input_array, 4));
    assert!(!builder.equal_to(5, &input_array, 5));
    assert!(builder.equal_to(6, &input_array, 6));
}

#[test]
fn test_byte_view_take_n() {
    let mut builder = ByteGroupValueViewBuilder::new(OutputType::Utf8).with_max_block_size(60);
    let input = vec![
        Some("this string is quite long"), // in block 0
        Some("foo"),
        Some("bar"),
        Some("this string is also quite long"), // block 0
        None,
        Some("this string is quite long"), // block 1
        None,
        Some("another string that is is quite long"), // block 1
        Some("bar"),
    ];
    let input_array = bytes_col(input.clone());
    for row in 0..9 {
        builder.append_val(&input_array, row);
    }
    // two completed blocks and one in progress hold everything
    assert_eq!(builder.completed.len(), 2);
    assert!(!builder.in_progress.is_empty());

    let first_4 = builder.take_n(4);
    assert_eq!(column_values(&first_4), opt_bytes(input[0..4].to_vec()));

    // add new data after the first n
    let more = vec![
        Some("short"),
        None,
        Some("Some new data to add that is long"), // in block 0
        Some("short again"),
    ];
    let more_array = bytes_col(more.clone());
    for row in 0..4 {
        builder.append_val(&more_array, row);
    }
    let result = builder.build();
    let expected = vec![
        // the rows left after the emitted prefix
        None,
        Some("this string is quite long"),
        None,
        Some("another string that is is quite long"),
        Some("bar"),
        // the subsequent input
        Some("short"),
        None,
        Some("Some new data to add that is long"),
        Some("short again"),
    ];
    assert_eq!(column_values(&result), opt_bytes(expected));
}
