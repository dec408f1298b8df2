use colexec::bridge::{BridgeOutcome, BridgeState, ChannelPoll, DriverPoll};
use colexec::data::{concat_batches, BoolColumn, Column, DataType, PrimitiveColumn, RecordBatch,
    SortOptions};
use colexec::error::ExecError;
use colexec::merge::{check_streams_sorted, merge_streams};
use colexec::topk::{SortKey, TopK};

fn int_batch(values: Vec<Option<i64>>) -> RecordBatch {
    let n = values.len();
    let col = Column::Int64(PrimitiveColumn::from_options(values));
    RecordBatch::try_new(vec![DataType::Int64], vec![col], n).unwrap()
}

fn two_col_batch(tags: Vec<Option<i64>>, values: Vec<Option<i64>>) -> RecordBatch {
    let n = values.len();
    let tag_col = Column::Int64(PrimitiveColumn::from_options(tags));
    let val_col = Column::Int64(PrimitiveColumn::from_options(values));
    RecordBatch::try_new(
        vec![DataType::Int64, DataType::Int64],
        vec![tag_col, val_col],
        n,
    )
    .unwrap()
}

fn int_cell(batch: &RecordBatch, c: usize, i: usize) -> Option<i64> {
    match &batch.columns[c] {
        Column::Int64(pc) => {
            if pc.valid[i] {
                Some(pc.values[i])
            } else {
                None
            }
        }
        _ => panic!("expected an integer column"),
    }
}

/// Top-3 by value descending over three batches; ties resolve to the
/// earlier-inserted row.
#[test]
fn topk_top3_descending_is_stable() {
    // customers are tagged 1..=6, revenues as in the batches below
    let schema = vec![DataType::Int64, DataType::Int64];
    let expr = vec![SortKey {
        column: 1,
        options: SortOptions { descending: true, nulls_first: true },
    }];
    let mut topk = TopK::try_new(schema, expr, 3, 100, usize::MAX).unwrap();
    topk.insert_batch(two_col_batch(
        vec![Some(1), Some(2)],
        vec![Some(5), Some(9)],
    ))
    .unwrap();
    topk.insert_batch(two_col_batch(
        vec![Some(3), Some(4), Some(5)],
        vec![Some(3), Some(9), Some(7)],
    ))
    .unwrap();
    topk.insert_batch(two_col_batch(vec![Some(6)], vec![Some(1)]))
        .unwrap();
    // two retained rows were evicted for better ones: (c1, 5) and (c3, 3)
    assert_eq!(topk.metrics.row_replacements, 2);
    let (out, metrics) = topk.emit();
    assert_eq!(metrics.row_replacements, 2);
    assert_eq!(metrics.output_rows, 3);
    assert_eq!(out.len(), 1);
    let batch = &out[0];
    assert_eq!(batch.num_rows, 3);
    // expected, in order: (c2, 9), (c4, 9), (c5, 7)
    assert_eq!(int_cell(batch, 0, 0), Some(2));
    assert_eq!(int_cell(batch, 1, 0), Some(9));
    assert_eq!(int_cell(batch, 0, 1), Some(4));
    assert_eq!(int_cell(batch, 1, 1), Some(9));
    assert_eq!(int_cell(batch, 0, 2), Some(5));
    assert_eq!(int_cell(batch, 1, 2), Some(7));
}

/// Top-1 ascending with nulls last keeps the smallest non-null value.
#[test]
fn topk_top1_nulls_last_ascending() {
    let schema = vec![DataType::Int64];
    let expr = vec![SortKey {
        column: 0,
        options: SortOptions { descending: false, nulls_first: false },
    }];
    let mut topk = TopK::try_new(schema, expr, 1, 100, usize::MAX).unwrap();
    topk.insert_batch(int_batch(vec![None, Some(3), Some(1), Some(2)]))
        .unwrap();
    let (out, metrics) = topk.emit();
    assert_eq!(metrics.row_replacements, 2);
    assert_eq!(metrics.output_rows, 1);
    assert_eq!(out.len(), 1);
    assert_eq!(out[0].num_rows, 1);
    assert_eq!(int_cell(&out[0], 0, 0), Some(1));
}

/// Fewer input rows than K: every row comes out, sorted.
#[test]
fn topk_fewer_rows_than_k() {
    let schema = vec![DataType::Int64];
    let expr = vec![SortKey { column: 0, options: SortOptions::default() }];
    let mut topk = TopK::try_new(schema, expr, 5, 100, usize::MAX).unwrap();
    topk.insert_batch(int_batch(vec![Some(4), Some(2)])).unwrap();
    // nothing was evicted: the heap never filled
    let (out, metrics) = topk.emit();
    assert_eq!(metrics.row_replacements, 0);
    assert_eq!(metrics.output_rows, 2);
    assert_eq!(out.len(), 1);
    assert_eq!(out[0].num_rows, 2);
    assert_eq!(int_cell(&out[0], 0, 0), Some(2));
    assert_eq!(int_cell(&out[0], 0, 1), Some(4));
}

#[test]
fn topk_rejects_bad_sort_column() {
    let schema = vec![DataType::Int64];
    let expr = vec![SortKey { column: 7, options: SortOptions::default() }];
    let r = TopK::try_new(schema, expr, 1, 100, usize::MAX);
    assert!(matches!(r, Err(ExecError::InvalidInput)));
}

/// Merge of three pre-sorted streams; equal keys come out by stream index.
#[test]
fn merge_three_streams_ties_by_stream_index() {
    let s0 = two_col_batch(vec![Some(0); 3], vec![Some(2), Some(4), Some(6)]);
    let s1 = two_col_batch(vec![Some(1); 3], vec![Some(2), Some(3), Some(5)]);
    let s2 = two_col_batch(vec![Some(2); 3], vec![Some(1), Some(2), Some(9)]);
    let streams = vec![s0, s1, s2];
    let expr = vec![SortKey { column: 1, options: SortOptions::default() }];
    let (merged, _) = merge_streams(&streams, &expr, None).unwrap();
    let expected: Vec<(i64, i64)> = vec![
        (1, 2),
        (2, 0),
        (2, 1),
        (2, 2),
        (3, 1),
        (4, 0),
        (5, 1),
        (6, 0),
        (9, 2),
    ];
    assert_eq!(merged.num_rows, expected.len());
    for (i, (value, stream)) in expected.iter().enumerate() {
        assert_eq!(int_cell(&merged, 1, i), Some(*value));
        assert_eq!(int_cell(&merged, 0, i), Some(*stream));
    }
}

/// The same merge stopped after four rows by the fetch limit.
#[test]
fn merge_with_fetch_limit() {
    let s0 = two_col_batch(vec![Some(0); 3], vec![Some(2), Some(4), Some(6)]);
    let s1 = two_col_batch(vec![Some(1); 3], vec![Some(2), Some(3), Some(5)]);
    let s2 = two_col_batch(vec![Some(2); 3], vec![Some(1), Some(2), Some(9)]);
    let streams = vec![s0, s1, s2];
    let expr = vec![SortKey { column: 1, options: SortOptions::default() }];
    let (merged, _) = merge_streams(&streams, &expr, Some(4)).unwrap();
    let expected: Vec<(i64, i64)> = vec![(1, 2), (2, 0), (2, 1), (2, 2)];
    assert_eq!(merged.num_rows, expected.len());
    for (i, (value, stream)) in expected.iter().enumerate() {
        assert_eq!(int_cell(&merged, 1, i), Some(*value));
        assert_eq!(int_cell(&merged, 0, i), Some(*stream));
    }
}

/// A single input stream passes through, truncated by the fetch limit.
#[test]
fn merge_single_stream_passthrough() {
    let s0 = int_batch(vec![Some(1), Some(2), Some(3)]);
    let streams = vec![s0];
    let expr = vec![SortKey { column: 0, options: SortOptions::default() }];
    let (merged, _) = merge_streams(&streams, &expr, Some(2)).unwrap();
    assert_eq!(merged.num_rows, 2);
    assert_eq!(int_cell(&merged, 0, 0), Some(1));
    assert_eq!(int_cell(&merged, 0, 1), Some(2));
}

#[test]
fn merge_without_inputs_is_an_error() {
    let streams: Vec<RecordBatch> = Vec::new();
    let expr = vec![SortKey { column: 0, options: SortOptions::default() }];
    let r = merge_streams(&streams, &expr, None);
    assert!(matches!(r, Err(ExecError::InvalidInput)));
}

/// The bridge keeps the consumer pending until the driver completes, and
/// reports the end only after both the driver and the channel finished.
#[test]
fn bridge_finishes_only_after_driver() {
    let mut state = BridgeState::new();
    // channel closed but the driver still runs: not ready
    let r = state.poll_step::<u8>(DriverPoll::Pending, ChannelPoll::Closed);
    assert!(matches!(r, BridgeOutcome::NotReady));
    // the driver completes: the stream ends
    let r = state.poll_step::<u8>(DriverPoll::Ready, ChannelPoll::Pending);
    assert!(matches!(r, BridgeOutcome::Finished));
}

#[test]
fn bridge_passes_items_through() {
    let mut state = BridgeState::new();
    let r = state.poll_step(DriverPoll::Pending, ChannelPoll::Item(7u8));
    assert!(matches!(r, BridgeOutcome::Item(7)));
    let r = state.poll_step(DriverPoll::Ready, ChannelPoll::Item(8u8));
    assert!(matches!(r, BridgeOutcome::Item(8)));
    let r = state.poll_step::<u8>(DriverPoll::Ready, ChannelPoll::Closed);
    assert!(matches!(r, BridgeOutcome::Finished));
}

/// The emitted batches are cut to the configured batch size: every batch
/// before the last is full.
#[test]
fn topk_emit_cuts_to_batch_size() {
    let schema = vec![DataType::Int64];
    let expr = vec![SortKey { column: 0, options: SortOptions::default() }];
    let mut topk = TopK::try_new(schema, expr, 5, 2, usize::MAX).unwrap();
    topk.insert_batch(int_batch(vec![Some(5), Some(3), Some(1), Some(4), Some(2)]))
        .unwrap();
    let (out, metrics) = topk.emit();
    assert_eq!(metrics.output_rows, 5);
    assert_eq!(out.len(), 3);
    assert_eq!(out[0].num_rows, 2);
    assert_eq!(out[1].num_rows, 2);
    assert_eq!(out[2].num_rows, 1);
    let flat: Vec<Option<i64>> = out
        .iter()
        .flat_map(|b| (0..b.num_rows).map(|i| int_cell(b, 0, i)).collect::<Vec<_>>())
        .collect();
    assert_eq!(flat, vec![Some(1), Some(2), Some(3), Some(4), Some(5)]);
}

/// Concatenation stacks batches in order and keeps every cell.
#[test]
fn concat_batches_stacks_rows() {
    let a = two_col_batch(vec![Some(1), None], vec![Some(10), Some(20)]);
    let b = two_col_batch(vec![Some(3)], vec![None]);
    let merged = concat_batches(&vec![a, b]).unwrap();
    assert_eq!(merged.num_rows, 3);
    assert_eq!(merged.schema, vec![DataType::Int64, DataType::Int64]);
    assert_eq!(int_cell(&merged, 0, 0), Some(1));
    assert_eq!(int_cell(&merged, 1, 0), Some(10));
    assert_eq!(int_cell(&merged, 0, 1), None);
    assert_eq!(int_cell(&merged, 1, 1), Some(20));
    assert_eq!(int_cell(&merged, 0, 2), Some(3));
    assert_eq!(int_cell(&merged, 1, 2), None);
}

/// Batches of different schemas cannot be concatenated.
#[test]
fn concat_batches_rejects_mixed_schemas() {
    let a = int_batch(vec![Some(1)]);
    let b = two_col_batch(vec![Some(1)], vec![Some(2)]);
    let r = concat_batches(&vec![a, b]);
    assert!(matches!(r, Err(ExecError::InvalidInput)));
    assert!(matches!(concat_batches(&Vec::new()), Err(ExecError::InvalidInput)));
}

/// The sortedness check accepts sorted runs and refuses an unsorted one.
#[test]
fn check_streams_sorted_detects_disorder() {
    let expr = vec![SortKey { column: 0, options: SortOptions::default() }];
    let sorted = vec![
        int_batch(vec![Some(1), Some(3), Some(3)]),
        int_batch(vec![Some(2)]),
    ];
    assert!(check_streams_sorted(&sorted, &expr));
    let unsorted = vec![int_batch(vec![Some(2), Some(1)])];
    assert!(!check_streams_sorted(&unsorted, &expr));
}

/// Boolean sort keys order false before true ascending; a descending key
/// reverses that.
#[test]
fn topk_orders_boolean_keys() {
    let bools = vec![Some(true), Some(false), Some(true), Some(false)];
    let tags = vec![Some(1), Some(2), Some(3), Some(4)];
    let n = bools.len();
    let batch = RecordBatch::try_new(
        vec![DataType::Bool, DataType::Int64],
        vec![
            Column::Bool(BoolColumn::from_options(bools)),
            Column::Int64(PrimitiveColumn::from_options(tags)),
        ],
        n,
    )
    .unwrap();
    let schema = vec![DataType::Bool, DataType::Int64];
    let expr = vec![SortKey { column: 0, options: SortOptions::default() }];
    let mut topk = TopK::try_new(schema, expr, 2, 100, usize::MAX).unwrap();
    topk.insert_batch(batch).unwrap();
    let (out, _metrics) = topk.emit();
    assert_eq!(out.len(), 1);
    assert_eq!(out[0].num_rows, 2);
    // the two false rows come first, stably: tags 2 then 4
    assert_eq!(int_cell(&out[0], 1, 0), Some(2));
    assert_eq!(int_cell(&out[0], 1, 1), Some(4));
}
