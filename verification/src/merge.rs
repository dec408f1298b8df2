//! The K-way sort-preserving merge: given N input streams each sorted by
//! the same sort expressions, produce one sorted stream that is a stable
//! merge — per output row the stream whose head row's encoded key is
//! smallest is chosen, ties broken by lower stream index.

use vstd::prelude::*;

use crate::data::{Cell, Column, DataType, RecordBatch, SortField};
use crate::encoder::enc_row;
use crate::error::ExecError;
use crate::lex::{bytes_le, bytes_lt, lex_le, lex_lt, lemma_lex_le_refl, lemma_lex_le_trans,
    lemma_lex_trichotomy};
use crate::topk::{key_cells, schemas_equal, SortKey};

verus! {

/// The encoded sort key of row `i` of stream `s`.
pub open spec fn stream_key(
    streams: Seq<RecordBatch>,
    exprs: Seq<SortKey>,
    fields: Seq<SortField>,
    s: int,
    i: int,
) -> Seq<u8> {
    enc_row(fields, key_cells(exprs, streams[s], i))
}

/// How many of the picks draw from stream `s`.
pub open spec fn stream_count(picks: Seq<(usize, usize)>, s: int) -> int
    decreases picks.len(),
{
    if picks.len() == 0 {
        0
    } else {
        stream_count(picks.drop_last(), s) + (if picks.last().0 == s {
            1int
        } else {
            0int
        })
    }
}

proof fn lemma_stream_count_step(picks: Seq<(usize, usize)>, s: int, p: int)
    requires
        0 <= p < picks.len(),
        picks[p].0 == s,
    ensures
        stream_count(picks.take(p + 1), s) == stream_count(picks.take(p), s) + 1,
{
    assert(picks.take(p + 1).drop_last() =~= picks.take(p));
    assert(picks.take(p + 1).last() == picks[p]);
}

/// The picks of a stable merge: every pick names a stream and the next
/// unconsumed row of that stream; the keys come out in nondecreasing
/// order; equal keys come out by stream index, earlier rows of one stream
/// first.
pub open spec fn is_stable_merge(
    streams: Seq<RecordBatch>,
    exprs: Seq<SortKey>,
    fields: Seq<SortField>,
    picks: Seq<(usize, usize)>,
) -> bool {
    &&& forall|p: int| 0 <= p < picks.len() ==> 0 <= (#[trigger] picks[p]).0 < streams.len()
    &&& forall|p: int|
        0 <= p < picks.len() ==> (#[trigger] picks[p]).1 < streams[picks[p].0 as int].num_rows
    &&& forall|p: int|
        0 <= p < picks.len() ==> (#[trigger] picks[p]).1 == stream_count(
            picks.take(p),
            picks[p].0 as int,
        )
    &&& forall|p: int, q: int|
        0 <= p < q < picks.len() ==> lex_le(
            stream_key(streams, exprs, fields, (#[trigger] picks[p]).0 as int, picks[p].1 as int),
            stream_key(streams, exprs, fields, (#[trigger] picks[q]).0 as int, picks[q].1 as int),
        )
    &&& forall|p: int, q: int|
        0 <= p < q < picks.len() && stream_key(
            streams,
            exprs,
            fields,
            (#[trigger] picks[p]).0 as int,
            picks[p].1 as int,
        ) == stream_key(
            streams,
            exprs,
            fields,
            (#[trigger] picks[q]).0 as int,
            picks[q].1 as int,
        ) ==> picks[p].0 <= picks[q].0
}

/// Merge law, single input: a stable merge of one stream is a passthrough
/// — pick `p` is row `p` of that stream.
pub proof fn lemma_merge_single_is_passthrough(
    streams: Seq<RecordBatch>,
    exprs: Seq<SortKey>,
    fields: Seq<SortField>,
    picks: Seq<(usize, usize)>,
)
    requires
        streams.len() == 1,
        is_stable_merge(streams, exprs, fields, picks),
    ensures
        forall|p: int| 0 <= p < picks.len() ==> (#[trigger] picks[p]) == (0usize, p as usize),
{
    assert forall|p: int|
        0 <= p < picks.len() implies (#[trigger] picks[p]) == (0usize, p as usize) by {
        lemma_single_pick(streams, exprs, fields, picks, p);
    }
}

proof fn lemma_single_pick(
    streams: Seq<RecordBatch>,
    exprs: Seq<SortKey>,
    fields: Seq<SortField>,
    picks: Seq<(usize, usize)>,
    p: int,
)
    requires
        streams.len() == 1,
        is_stable_merge(streams, exprs, fields, picks),
        0 <= p < picks.len(),
    ensures
        picks[p] == (0usize, p as usize),
        stream_count(picks.take(p), 0) == p,
    decreases p,
{
    if p > 0 {
        lemma_single_pick(streams, exprs, fields, picks, p - 1);
        lemma_stream_count_step(picks, 0, p - 1);
    } else {
        assert(picks.take(0) =~= Seq::<(usize, usize)>::empty());
    }
    assert(picks[p].0 == 0);
}

/// The sort fields a sort-key list derives over a schema.
pub open spec fn derived_fields(schema: Seq<DataType>, exprs: Seq<SortKey>) -> Seq<SortField> {
    Seq::new(
        exprs.len(),
        |f: int| SortField { data_type: schema[exprs[f].column as int], options: exprs[f].options },
    )
}

/// The rows of all streams together.
pub open spec fn total_rows(streams: Seq<RecordBatch>) -> int
    decreases streams.len(),
{
    if streams.len() == 0 {
        0
    } else {
        total_rows(streams.drop_last()) + streams.last().num_rows
    }
}

/// The rows consumed so far.
pub open spec fn sum_cursors(cursors: Seq<usize>) -> int
    decreases cursors.len(),
{
    if cursors.len() == 0 {
        0
    } else {
        sum_cursors(cursors.drop_last()) + cursors.last()
    }
}

proof fn lemma_sum_cursors_bound(streams: Seq<RecordBatch>, cursors: Seq<usize>)
    requires
        cursors.len() == streams.len(),
        forall|s: int|
            0 <= s < streams.len() ==> (#[trigger] cursors[s]) <= streams[s].num_rows,
    ensures
        sum_cursors(cursors) <= total_rows(streams),
        (exists|s: int|
            0 <= s < streams.len() && (#[trigger] cursors[s]) < streams[s].num_rows)
            ==> sum_cursors(cursors) < total_rows(streams),
    decreases streams.len(),
{
    if streams.len() > 0 {
        let sd = streams.drop_last();
        let cd = cursors.drop_last();
        lemma_sum_cursors_bound(sd, cd);
        if exists|s: int|
            0 <= s < streams.len() && (#[trigger] cursors[s]) < streams[s].num_rows {
            let w = choose|w: int|
                0 <= w < streams.len() && (#[trigger] cursors[w]) < streams[w].num_rows;
            if w < streams.len() - 1 {
                assert(cd[w] < sd[w].num_rows);
                assert(sum_cursors(cd) < total_rows(sd));
            }
        }
    }
}

proof fn lemma_sum_cursors_update(cursors: Seq<usize>, s: int, v: usize)
    requires
        0 <= s < cursors.len(),
        v == cursors[s] + 1,
    ensures
        sum_cursors(cursors.update(s, v)) == sum_cursors(cursors) + 1,
    decreases cursors.len(),
{
    let upd = cursors.update(s, v);
    if s == cursors.len() - 1 {
        assert(upd.drop_last() =~= cursors.drop_last());
    } else {
        assert(upd.drop_last() =~= cursors.drop_last().update(s, v));
        lemma_sum_cursors_update(cursors.drop_last(), s, v);
    }
}


/// Adjacent-pair order within one stream extends to every pair, by
/// transitivity: the executable order check only compares neighbours.
proof fn lemma_adjacent_implies_sorted(
    streams: Seq<RecordBatch>,
    exprs: Seq<SortKey>,
    fields: Seq<SortField>,
    s: int,
    i: int,
    j: int,
)
    requires
        0 <= i <= j,
        forall|w: int|
            i <= w < j ==> lex_le(
                #[trigger] stream_key(streams, exprs, fields, s, w),
                stream_key(streams, exprs, fields, s, w + 1),
            ),
    ensures
        lex_le(
            stream_key(streams, exprs, fields, s, i),
            stream_key(streams, exprs, fields, s, j),
        ),
    decreases j - i,
{
    if i == j {
        lemma_lex_le_refl(stream_key(streams, exprs, fields, s, i));
    } else {
        lemma_adjacent_implies_sorted(streams, exprs, fields, s, i, j - 1);
        lemma_lex_le_trans(
            stream_key(streams, exprs, fields, s, i),
            stream_key(streams, exprs, fields, s, j - 1),
            stream_key(streams, exprs, fields, s, j),
        );
    }
}

/// Test the merge's order precondition: within every stream the encoded
/// sort keys come nondecreasing. A caller that cannot establish the
/// order by proof runs this check first.
pub fn check_streams_sorted(streams: &Vec<RecordBatch>, expr: &Vec<SortKey>) -> (r: bool)
    requires
        streams@.len() >= 1,
        forall|s: int| 0 <= s < streams@.len() ==> (#[trigger] streams@[s]).wf(),
        forall|s: int|
            0 <= s < streams@.len() ==> (#[trigger] streams@[s]).schema@ == streams@[0].schema@,
        forall|f: int|
            0 <= f < expr@.len() ==> (#[trigger] expr@[f]).column < streams@[0].schema@.len(),
    ensures
        r == (forall|s: int, i: int, j: int|
            0 <= s < streams@.len() && 0 <= i <= j < streams@[s].num_rows ==> lex_le(
                #[trigger] stream_key(
                    streams@,
                    expr@,
                    derived_fields(streams@[0].schema@, expr@),
                    s,
                    i,
                ),
                #[trigger] stream_key(
                    streams@,
                    expr@,
                    derived_fields(streams@[0].schema@, expr@),
                    s,
                    j,
                ),
            )),
{
    let ghost fields_g = derived_fields(streams@[0].schema@, expr@);
    let n = streams.len();
    let nf = expr.len();
    let mut fields: Vec<SortField> = Vec::new();
    let mut f: usize = 0;
    while f < nf
        invariant
            0 <= f <= nf,
            n == streams@.len(),
            n >= 1,
            nf == expr@.len(),
            fields@.len() == f,
            forall|s: int| 0 <= s < streams@.len() ==> (#[trigger] streams@[s]).wf(),
            forall|w: int|
                0 <= w < nf ==> (#[trigger] expr@[w]).column < streams@[0].schema@.len(),
            forall|w: int| 0 <= w < f ==> #[trigger] fields@[w] == fields_g[w],
            fields_g == derived_fields(streams@[0].schema@, expr@),
        decreases nf - f,
    {
        let col = expr[f].column;
        fields.push(SortField { data_type: streams[0].schema[col], options: expr[f].options });
        f += 1;
    }
    proof {
        assert(fields@ =~= fields_g);
    }
    let mut s1: usize = 0;
    while s1 < n
        invariant
            0 <= s1 <= n,
            n == streams@.len(),
            n >= 1,
            nf == expr@.len(),
            fields@ == fields_g,
            fields_g == derived_fields(streams@[0].schema@, expr@),
            forall|s: int| 0 <= s < streams@.len() ==> (#[trigger] streams@[s]).wf(),
            forall|s: int|
                0 <= s < streams@.len() ==> (#[trigger] streams@[s]).schema@ == streams@[0].schema@,
            forall|w: int|
                0 <= w < nf ==> (#[trigger] expr@[w]).column < streams@[0].schema@.len(),
            forall|s: int, i: int, j: int|
                0 <= s < s1 && 0 <= i <= j < streams@[s].num_rows ==> lex_le(
                    #[trigger] stream_key(streams@, expr@, fields_g, s, i),
                    #[trigger] stream_key(streams@, expr@, fields_g, s, j),
                ),
        decreases n - s1,
    {
        let stream = &streams[s1];
        let mut kcols: Vec<Column> = Vec::new();
        let mut w: usize = 0;
        while w < nf
            invariant
                0 <= w <= nf,
                n == streams@.len(),
                s1 < n,
                nf == expr@.len(),
                stream == &streams@[s1 as int],
                stream.wf(),
                stream.schema@ == streams@[0].schema@,
                forall|w2: int|
                    0 <= w2 < nf ==> (#[trigger] expr@[w2]).column < streams@[0].schema@.len(),
                fields@ == fields_g,
                fields_g == derived_fields(streams@[0].schema@, expr@),
                kcols@.len() == w,
                forall|w2: int| 0 <= w2 < w ==> (#[trigger] kcols@[w2]).wf(),
                forall|w2: int|
                    0 <= w2 < w ==> (#[trigger] kcols@[w2]).len_spec() == stream.num_rows,
                forall|w2: int, i: int|
                    0 <= w2 < w && 0 <= i < stream.num_rows ==> (#[trigger] kcols@[w2].cell(i))
                        == stream.columns@[expr@[w2].column as int].cell(i),
                forall|w2: int|
                    0 <= w2 < w ==> (#[trigger] kcols@[w2]).matches_type_spec(
                        fields_g[w2].data_type,
                    ),
            decreases nf - w,
        {
            let col = expr[w].column;
            kcols.push(stream.columns[col].duplicate());
            w += 1;
        }
        let encoded = match crate::encoder::encode_rows(&kcols, &fields, stream.num_rows) {
            Ok(encoded) => encoded,
            Err(_) => {
                proof {
                    assert(false);
                }
                return false;
            },
        };
        proof {
            assert forall|i: int|
                0 <= i < stream.num_rows implies ((#[trigger] encoded@[i])@) == stream_key(
                streams@,
                expr@,
                fields_g,
                s1 as int,
                i,
            ) by {
                assert(crate::encoder::row_cells(kcols@, i) =~= key_cells(
                    expr@,
                    streams@[s1 as int],
                    i,
                ));
            }
        }
        let nr = stream.num_rows;
        let mut i: usize = 1;
        while i < nr
            invariant
                1 <= i,
                i <= nr || nr == 0,
                n == streams@.len(),
                s1 < n,
                nf == expr@.len(),
                stream == &streams@[s1 as int],
                nr == stream.num_rows,
                fields_g == derived_fields(streams@[0].schema@, expr@),
                encoded@.len() == nr,
                forall|v: int|
                    0 <= v < nr ==> ((#[trigger] encoded@[v])@) == stream_key(
                        streams@,
                        expr@,
                        fields_g,
                        s1 as int,
                        v,
                    ),
                forall|v: int|
                    0 <= v < i - 1 ==> lex_le(
                        #[trigger] stream_key(streams@, expr@, fields_g, s1 as int, v),
                        stream_key(streams@, expr@, fields_g, s1 as int, v + 1),
                    ),
            decreases nr - i,
        {
            if !bytes_le(encoded[i - 1].as_slice(), encoded[i].as_slice()) {
                proof {
                    let ii = i - 1;
                    let jj = i as int;
                    assert(!lex_le(
                        stream_key(streams@, expr@, fields_g, s1 as int, ii),
                        stream_key(streams@, expr@, fields_g, s1 as int, jj),
                    ));
                    assert((s1 as int) < streams@.len());
                    assert(0 <= ii <= jj < streams@[s1 as int].num_rows);
                }
                return false;
            }
            i += 1;
        }
        proof {
            assert forall|i2: int, j2: int|
                0 <= i2 <= j2 < streams@[s1 as int].num_rows implies lex_le(
                stream_key(streams@, expr@, fields_g, s1 as int, i2),
                stream_key(streams@, expr@, fields_g, s1 as int, j2),
            ) by {
                lemma_adjacent_implies_sorted(streams@, expr@, fields_g, s1 as int, i2, j2);
            }
        }
        s1 += 1;
    }
    true
}

/// Merge N pre-sorted streams into one sorted batch: a stable merge, cut
/// off after the fetch limit when one is given. Fails with invalid input
/// exactly when there is no input stream, the streams disagree on the
/// schema, or a sort expression names a column outside it. Requires each
/// input stream to be sorted by the derived sort fields.
pub fn merge_streams(streams: &Vec<RecordBatch>, expr: &Vec<SortKey>, fetch: Option<usize>) -> (r:
    Result<(RecordBatch, Ghost<Seq<(usize, usize)>>), ExecError>)
    requires
        forall|s: int| 0 <= s < streams@.len() ==> (#[trigger] streams@[s]).wf(),
        forall|s: int, i: int, j: int|
            0 <= s < streams@.len() && 0 <= i <= j < streams@[s].num_rows ==> lex_le(
                #[trigger] stream_key(
                    streams@,
                    expr@,
                    derived_fields(streams@[0].schema@, expr@),
                    s,
                    i,
                ),
                #[trigger] stream_key(
                    streams@,
                    expr@,
                    derived_fields(streams@[0].schema@, expr@),
                    s,
                    j,
                ),
            ),
    ensures
        r is Ok <==> {
            &&& streams@.len() >= 1
            &&& forall|s: int|
                0 <= s < streams@.len() ==> (#[trigger] streams@[s]).schema@ == streams@[0].schema@
            &&& forall|f: int|
                0 <= f < expr@.len() ==> (#[trigger] expr@[f]).column < streams@[0].schema@.len()
        },
        r is Err ==> r == Result::<(RecordBatch, Ghost<Seq<(usize, usize)>>), ExecError>::Err(
            ExecError::InvalidInput,
        ),
        r matches Ok((batch, picks)) ==> {
            &&& batch.wf()
            &&& batch.schema@ == streams@[0].schema@
            &&& is_stable_merge(
                streams@,
                expr@,
                derived_fields(streams@[0].schema@, expr@),
                picks@,
            )
            &&& batch.num_rows == picks@.len()
            &&& forall|p: int|
                0 <= p < picks@.len() ==> #[trigger] batch.row(p) == streams@[(picks@[p]).0 as int].row(
                    (picks@[p]).1 as int,
                )
            &&& (match fetch {
                Some(limit) => picks@.len() == (if limit as int <= total_rows(streams@) {
                    limit as int
                } else {
                    total_rows(streams@)
                }),
                None => picks@.len() == total_rows(streams@),
            })
            &&& (fetch is None ==> forall|s: int|
                0 <= s < streams@.len() ==> stream_count(picks@, s) == (
                #[trigger] streams@[s]).num_rows)
        },
{
    let ghost fields_g = derived_fields(streams@[0].schema@, expr@);
    let n = streams.len();
    if n == 0 {
        return Err(ExecError::InvalidInput);
    }
    // the streams must agree on the schema
    let mut s0: usize = 0;
    while s0 < n
        invariant
            0 <= s0 <= n,
            n == streams@.len(),
            n >= 1,
            forall|s: int| 0 <= s < streams@.len() ==> (#[trigger] streams@[s]).wf(),
            forall|s: int|
                0 <= s < s0 ==> (#[trigger] streams@[s]).schema@ == streams@[0].schema@,
        decreases n - s0,
    {
        if !schemas_equal(&streams[s0].schema, &streams[0].schema) {
            return Err(ExecError::InvalidInput);
        }
        s0 += 1;
    }
    // derive the sort fields; every expression must name a schema column
    let nf = expr.len();
    let mut fields: Vec<SortField> = Vec::new();
    let mut f: usize = 0;
    while f < nf
        invariant
            0 <= f <= nf,
            n == streams@.len(),
            n >= 1,
            nf == expr@.len(),
            fields@.len() == f,
            forall|w: int|
                0 <= w < f ==> (#[trigger] expr@[w]).column < streams@[0].schema@.len(),
            forall|w: int| 0 <= w < f ==> #[trigger] fields@[w] == fields_g[w],
            fields_g == derived_fields(streams@[0].schema@, expr@),
        decreases nf - f,
    {
        let col = expr[f].column;
        if col >= streams[0].schema.len() {
            return Err(ExecError::InvalidInput);
        }
        fields.push(SortField { data_type: streams[0].schema[col], options: expr[f].options });
        f += 1;
    }
    proof {
        assert(fields@ =~= fields_g);
    }
    // encode every stream's sort keys
    let mut keys: Vec<Vec<Vec<u8>>> = Vec::new();
    let mut s1: usize = 0;
    while s1 < n
        invariant
            0 <= s1 <= n,
            n == streams@.len(),
            n >= 1,
            nf == expr@.len(),
            fields@ == fields_g,
            fields_g == derived_fields(streams@[0].schema@, expr@),
            forall|s: int| 0 <= s < streams@.len() ==> (#[trigger] streams@[s]).wf(),
            forall|s: int|
                0 <= s < streams@.len() ==> (#[trigger] streams@[s]).schema@ == streams@[0].schema@,
            forall|w: int|
                0 <= w < nf ==> (#[trigger] expr@[w]).column < streams@[0].schema@.len(),
            keys@.len() == s1,
            forall|s: int|
                0 <= s < s1 ==> (#[trigger] keys@[s])@.len() == streams@[s].num_rows,
            forall|s: int, i: int|
                0 <= s < s1 && 0 <= i < streams@[s].num_rows ==> (#[trigger] (keys@[s])@[i])@
                    == stream_key(streams@, expr@, fields_g, s, i),
        decreases n - s1,
    {
        let stream = &streams[s1];
        let mut kcols: Vec<Column> = Vec::new();
        let mut w: usize = 0;
        while w < nf
            invariant
                0 <= w <= nf,
                n == streams@.len(),
                s1 < n,
                nf == expr@.len(),
                stream == &streams@[s1 as int],
                stream.wf(),
                stream.schema@ == streams@[0].schema@,
                forall|w2: int|
                    0 <= w2 < nf ==> (#[trigger] expr@[w2]).column < streams@[0].schema@.len(),
                fields@ == fields_g,
                fields_g == derived_fields(streams@[0].schema@, expr@),
                kcols@.len() == w,
                forall|w2: int| 0 <= w2 < w ==> (#[trigger] kcols@[w2]).wf(),
                forall|w2: int|
                    0 <= w2 < w ==> (#[trigger] kcols@[w2]).len_spec() == stream.num_rows,
                forall|w2: int, i: int|
                    0 <= w2 < w && 0 <= i < stream.num_rows ==> (#[trigger] kcols@[w2].cell(i))
                        == stream.columns@[expr@[w2].column as int].cell(i),
                forall|w2: int|
                    0 <= w2 < w ==> (#[trigger] kcols@[w2]).matches_type_spec(
                        fields_g[w2].data_type,
                    ),
            decreases nf - w,
        {
            let col = expr[w].column;
            kcols.push(stream.columns[col].duplicate());
            w += 1;
        }
        let encoded = match crate::encoder::encode_rows(&kcols, &fields, stream.num_rows) {
            Ok(encoded) => encoded,
            Err(_) => {
                proof {
                    assert(false);
                }
                return Err(ExecError::InvalidInput);
            },
        };
        proof {
            assert forall|i: int|
                0 <= i < stream.num_rows implies ((#[trigger] encoded@[i])@) == stream_key(
                streams@,
                expr@,
                fields_g,
                s1 as int,
                i,
            ) by {
                assert(crate::encoder::row_cells(kcols@, i) =~= key_cells(
                    expr@,
                    streams@[s1 as int],
                    i,
                ));
            }
        }
        keys.push(encoded);
        s1 += 1;
    }
    // the merge loop: per output row, take the stream whose head key is
    // smallest, ties to the lower stream index
    let mut cursors: Vec<usize> = Vec::new();
    let mut s2: usize = 0;
    while s2 < n
        invariant
            0 <= s2 <= n,
            cursors@.len() == s2,
            forall|s: int| 0 <= s < s2 ==> (#[trigger] cursors@[s]) == 0,
        decreases n - s2,
    {
        cursors.push(0);
        s2 += 1;
    }
    proof {
        lemma_zero_cursors(cursors@);
    }
    let mut picks: Vec<(usize, usize)> = Vec::new();
    loop
        invariant_except_break
            n == streams@.len(),
            n >= 1,
            nf == expr@.len(),
            fields_g == derived_fields(streams@[0].schema@, expr@),
            forall|s: int| 0 <= s < streams@.len() ==> (#[trigger] streams@[s]).wf(),
            forall|s: int|
                0 <= s < streams@.len() ==> (#[trigger] streams@[s]).schema@ == streams@[0].schema@,
            forall|s: int, i: int, j: int|
                0 <= s < streams@.len() && 0 <= i <= j < streams@[s].num_rows ==> lex_le(
                    #[trigger] stream_key(streams@, expr@, fields_g, s, i),
                    #[trigger] stream_key(streams@, expr@, fields_g, s, j),
                ),
            keys@.len() == n,
            forall|s: int|
                0 <= s < n ==> (#[trigger] keys@[s])@.len() == streams@[s].num_rows,
            forall|s: int, i: int|
                0 <= s < n && 0 <= i < streams@[s].num_rows ==> (#[trigger] (keys@[s])@[i])@
                    == stream_key(streams@, expr@, fields_g, s, i),
            cursors@.len() == n,
            forall|s: int|
                0 <= s < n ==> (#[trigger] cursors@[s]) <= streams@[s].num_rows,
            forall|s: int| 0 <= s < n ==> (#[trigger] cursors@[s]) == stream_count(picks@, s),
            picks@.len() == sum_cursors(cursors@),
            is_stable_merge(streams@, expr@, fields_g, picks@),
            // every retained row sorts no later than every live head, ties
            // to the retained row's stream
            forall|p: int, s: int|
                0 <= p < picks@.len() && 0 <= s < n && (#[trigger] cursors@[s]) < streams@[
                    s].num_rows ==> (lex_lt(
                    stream_key(
                        streams@,
                        expr@,
                        fields_g,
                        (#[trigger] picks@[p]).0 as int,
                        picks@[p].1 as int,
                    ),
                    stream_key(streams@, expr@, fields_g, s, cursors@[s] as int),
                ) || (stream_key(
                    streams@,
                    expr@,
                    fields_g,
                    picks@[p].0 as int,
                    picks@[p].1 as int,
                ) == stream_key(streams@, expr@, fields_g, s, cursors@[s] as int) && picks@[p].0
                    <= s)),
            match fetch {
                Some(limit) => picks@.len() <= limit,
                None => true,
            },
        ensures
            cursors@.len() == n,
            forall|s: int|
                0 <= s < n ==> (#[trigger] cursors@[s]) <= streams@[s].num_rows,
            forall|s: int| 0 <= s < n ==> (#[trigger] cursors@[s]) == stream_count(picks@, s),
            picks@.len() == sum_cursors(cursors@),
            is_stable_merge(streams@, expr@, fields_g, picks@),
            match fetch {
                Some(limit) => picks@.len() == limit as int || forall|s: int|
                    0 <= s < n ==> (#[trigger] cursors@[s]) == streams@[s].num_rows,
                None => forall|s: int|
                    0 <= s < n ==> (#[trigger] cursors@[s]) == streams@[s].num_rows,
            },
            match fetch {
                Some(limit) => picks@.len() <= limit,
                None => true,
            },
        decreases total_rows(streams@) - picks@.len() + (match fetch {
            Some(limit) => limit - picks@.len() + 1,
            None => 1int,
        }),
    {
        match fetch {
            Some(limit) => {
                if picks.len() >= limit {
                    break ;
                }
            },
            None => {},
        }
        // choose the live stream with the smallest head key
        let mut best: usize = 0;
        let mut have_best = false;
        let mut s3: usize = 0;
        while s3 < n
            invariant
                0 <= s3 <= n,
                n == streams@.len(),
                keys@.len() == n,
                cursors@.len() == n,
                forall|s: int|
                    0 <= s < n ==> (#[trigger] cursors@[s]) <= streams@[s].num_rows,
                forall|s: int|
                    0 <= s < n ==> (#[trigger] keys@[s])@.len() == streams@[s].num_rows,
                forall|s: int, i: int|
                    0 <= s < n && 0 <= i < streams@[s].num_rows ==> (#[trigger] (keys@[s])@[i])@
                        == stream_key(streams@, expr@, fields_g, s, i),
                have_best ==> best < s3 && cursors@[best as int] < streams@[best as int].num_rows,
                have_best ==> forall|s: int|
                    0 <= s < s3 && (#[trigger] cursors@[s]) < streams@[s].num_rows ==> (lex_lt(
                        stream_key(
                            streams@,
                            expr@,
                            fields_g,
                            best as int,
                            cursors@[best as int] as int,
                        ),
                        stream_key(streams@, expr@, fields_g, s, cursors@[s] as int),
                    ) || (stream_key(
                        streams@,
                        expr@,
                        fields_g,
                        best as int,
                        cursors@[best as int] as int,
                    ) == stream_key(streams@, expr@, fields_g, s, cursors@[s] as int) && best
                        <= s)),
                !have_best ==> forall|s: int|
                    0 <= s < s3 ==> (#[trigger] cursors@[s]) >= streams@[s].num_rows,
            decreases n - s3,
        {
            if cursors[s3] < streams[s3].num_rows {
                if !have_best {
                    best = s3;
                    have_best = true;
                } else {
                    let cand = bytes_lt(
                        keys[s3][cursors[s3]].as_slice(),
                        keys[best][cursors[best]].as_slice(),
                    );
                    let ghost old_best = best as int;
                    let ghost kb = stream_key(
                        streams@,
                        expr@,
                        fields_g,
                        best as int,
                        cursors@[best as int] as int,
                    );
                    let ghost k3 = stream_key(
                        streams@,
                        expr@,
                        fields_g,
                        s3 as int,
                        cursors@[s3 as int] as int,
                    );
                    if cand {
                        best = s3;
                        proof {
                            assert forall|s: int|
                                0 <= s < s3 + 1 && (#[trigger] cursors@[s]) < streams@[
                                    s].num_rows implies (lex_lt(
                                k3,
                                stream_key(streams@, expr@, fields_g, s, cursors@[s] as int),
                            ) || (k3 == stream_key(
                                streams@,
                                expr@,
                                fields_g,
                                s,
                                cursors@[s] as int,
                            ) && s3 as int <= s)) by {
                                let ks = stream_key(
                                    streams@,
                                    expr@,
                                    fields_g,
                                    s,
                                    cursors@[s] as int,
                                );
                                if s < s3 {
                                    if lex_lt(kb, ks) {
                                        crate::lex::lemma_lex_lt_trans(k3, kb, ks);
                                    } else {
                                        assert(kb == ks && old_best <= s);
                                        assert(lex_lt(k3, ks));
                                    }
                                } else {
                                    assert(s == s3 as int);
                                    lemma_lex_trichotomy(k3, ks);
                                }
                            }
                        }
                    } else {
                        proof {
                            lemma_lex_trichotomy(kb, k3);
                            lemma_lex_trichotomy(k3, kb);
                            assert(lex_lt(kb, k3) || kb == k3);
                        }
                    }
                }
            }
            s3 += 1;
        }
        if !have_best {
            break ;
        }
        let bi = cursors[best];
        let ghost old_picks = picks@;
        let ghost old_cursors = cursors@;
        picks.push((best, bi));
        cursors[best] = bi + 1;
        proof {
            let fg = fields_g;
            let key_m = stream_key(streams@, expr@, fg, best as int, bi as int);
            assert(picks@.drop_last() =~= old_picks);
            assert(picks@.last() == (best, bi));
            assert(cursors@ =~= old_cursors.update(best as int, (bi + 1) as usize));
            lemma_sum_cursors_update(old_cursors, best as int, (bi + 1) as usize);
            // stream counts advance only on the chosen stream
            assert forall|s: int| 0 <= s < n implies (#[trigger] cursors@[s]) == stream_count(
                picks@,
                s,
            ) by {
                assert(stream_count(picks@, s) == stream_count(old_picks, s) + (if best == s {
                    1int
                } else {
                    0int
                }));
            }
            // the new pick extends the stable merge
            assert forall|p: int|
                0 <= p < picks@.len() implies (#[trigger] picks@[p]).1 == stream_count(
                picks@.take(p),
                picks@[p].0 as int,
            ) by {
                if p < old_picks.len() {
                    assert(picks@.take(p) =~= old_picks.take(p));
                    assert(picks@[p] == old_picks[p]);
                } else {
                    assert(picks@.take(p) =~= old_picks);
                }
            }
            assert forall|p: int, q: int|
                0 <= p < q < picks@.len() implies lex_le(
                stream_key(
                    streams@,
                    expr@,
                    fg,
                    (#[trigger] picks@[p]).0 as int,
                    picks@[p].1 as int,
                ),
                stream_key(
                    streams@,
                    expr@,
                    fg,
                    (#[trigger] picks@[q]).0 as int,
                    picks@[q].1 as int,
                ),
            ) by {
                if q < old_picks.len() {
                    assert(picks@[p] == old_picks[p]);
                    assert(picks@[q] == old_picks[q]);
                } else {
                    assert(picks@[q] == (best, bi));
                    if p < old_picks.len() {
                        assert(picks@[p] == old_picks[p]);
                        assert(old_cursors[best as int] < streams@[best as int].num_rows);
                        lemma_lex_trichotomy(
                            stream_key(
                                streams@,
                                expr@,
                                fg,
                                picks@[p].0 as int,
                                picks@[p].1 as int,
                            ),
                            key_m,
                        );
                    }
                }
            }
            assert forall|p: int, q: int|
                0 <= p < q < picks@.len() && stream_key(
                    streams@,
                    expr@,
                    fg,
                    (#[trigger] picks@[p]).0 as int,
                    picks@[p].1 as int,
                ) == stream_key(
                    streams@,
                    expr@,
                    fg,
                    (#[trigger] picks@[q]).0 as int,
                    picks@[q].1 as int,
                ) implies picks@[p].0 <= picks@[q].0 by {
                if q < old_picks.len() {
                    assert(picks@[p] == old_picks[p]);
                    assert(picks@[q] == old_picks[q]);
                } else {
                    if p < old_picks.len() {
                        assert(picks@[p] == old_picks[p]);
                        assert(old_cursors[best as int] < streams@[best as int].num_rows);
                    }
                }
            }
            // the frontier advances: the chosen stream's next row is no
            // smaller than the row just taken
            assert forall|p: int, s: int|
                0 <= p < picks@.len() && 0 <= s < n && (#[trigger] cursors@[s]) < streams@[
                    s].num_rows implies (lex_lt(
                stream_key(
                    streams@,
                    expr@,
                    fg,
                    (#[trigger] picks@[p]).0 as int,
                    picks@[p].1 as int,
                ),
                stream_key(streams@, expr@, fg, s, cursors@[s] as int),
            ) || (stream_key(streams@, expr@, fg, picks@[p].0 as int, picks@[p].1 as int)
                == stream_key(streams@, expr@, fg, s, cursors@[s] as int) && picks@[p].0
                <= s)) by {
                let kp = stream_key(streams@, expr@, fg, picks@[p].0 as int, picks@[p].1 as int);
                let hs = stream_key(streams@, expr@, fg, s, cursors@[s] as int);
                if s == best as int {
                    // the chosen stream advanced; its new head is no
                    // smaller than the taken row, which bounds kp
                    let old_head = key_m;
                    assert(lex_le(old_head, hs));
                    if p < old_picks.len() {
                        assert(picks@[p] == old_picks[p]);
                        assert(old_cursors[s] < streams@[s].num_rows);
                        assert(lex_lt(kp, old_head) || (kp == old_head && picks@[p].0 <= s));
                        if lex_lt(kp, old_head) {
                            lemma_lex_trichotomy(old_head, hs);
                            if lex_lt(old_head, hs) {
                                crate::lex::lemma_lex_lt_trans(kp, old_head, hs);
                            } else {
                                assert(old_head == hs);
                            }
                        } else {
                            lemma_lex_trichotomy(kp, hs);
                            lemma_lex_trichotomy(hs, kp);
                            if lex_lt(hs, kp) {
                                assert(lex_le(kp, hs)) by {
                                    crate::lex::lemma_lex_le_trans(kp, old_head, hs);
                                }
                            }
                        }
                    } else {
                        assert(picks@[p] == (best, bi));
                        assert(kp == old_head);
                        assert(lex_le(kp, hs));
                        lemma_lex_trichotomy(kp, hs);
                    }
                } else {
                    assert(cursors@[s] == old_cursors[s]);
                    if p < old_picks.len() {
                        assert(picks@[p] == old_picks[p]);
                    } else {
                        assert(picks@[p] == (best, bi));
                        assert(kp == key_m);
                        assert(old_cursors[s] < streams@[s].num_rows);
                    }
                }
            }
            // progress
            lemma_sum_cursors_bound(streams@, cursors@);
        }
    }
    proof {
        match fetch {
            Some(limit) => {
                if picks@.len() < limit as int {
                    // the loop ended because every stream ran dry
                    lemma_sum_cursors_full(streams@, cursors@);
                }
                lemma_sum_cursors_bound(streams@, cursors@);
            },
            None => {
                assert forall|s: int| 0 <= s < n implies stream_count(picks@, s) == (
                #[trigger] streams@[s]).num_rows by {
                    assert(cursors@[s] == stream_count(picks@, s));
                }
                lemma_sum_cursors_full(streams@, cursors@);
            },
        }
    }
    // gather the picked rows into the output batch
    let batch = gather_picks(streams, &picks);
    Ok((batch, Ghost(picks@)))
}

proof fn lemma_zero_cursors(cursors: Seq<usize>)
    requires
        forall|s: int| 0 <= s < cursors.len() ==> (#[trigger] cursors[s]) == 0,
    ensures
        sum_cursors(cursors) == 0,
    decreases cursors.len(),
{
    if cursors.len() > 0 {
        lemma_zero_cursors(cursors.drop_last());
    }
}

proof fn lemma_sum_cursors_full(streams: Seq<RecordBatch>, cursors: Seq<usize>)
    requires
        cursors.len() == streams.len(),
        forall|s: int|
            0 <= s < streams.len() ==> (#[trigger] cursors[s]) == streams[s].num_rows,
    ensures
        sum_cursors(cursors) == total_rows(streams),
    decreases streams.len(),
{
    if streams.len() > 0 {
        lemma_sum_cursors_full(streams.drop_last(), cursors.drop_last());
    }
}

/// Gather the picked rows of the streams into one batch, in pick order.
fn gather_picks(streams: &Vec<RecordBatch>, picks: &Vec<(usize, usize)>) -> (r: RecordBatch)
    requires
        streams@.len() >= 1,
        forall|s: int| 0 <= s < streams@.len() ==> (#[trigger] streams@[s]).wf(),
        forall|s: int|
            0 <= s < streams@.len() ==> (#[trigger] streams@[s]).schema@ == streams@[0].schema@,
        forall|p: int| 0 <= p < picks@.len() ==> (#[trigger] picks@[p]).0 < streams@.len(),
        forall|p: int|
            0 <= p < picks@.len() ==> (#[trigger] picks@[p]).1 < streams@[(picks@[p]).0 as int].num_rows,
    ensures
        r.wf(),
        r.schema@ == streams@[0].schema@,
        r.num_rows == picks@.len(),
        forall|p: int|
            0 <= p < picks@.len() ==> #[trigger] r.row(p) == streams@[(picks@[p]).0 as int].row(
                (picks@[p]).1 as int,
            ),
{
    let ncols = streams[0].schema.len();
    let total = picks.len();
    let mut columns: Vec<Column> = Vec::new();
    let mut schema_out: Vec<DataType> = Vec::new();
    let mut c: usize = 0;
    while c < ncols
        invariant
            0 <= c <= ncols,
            streams@.len() >= 1,
            forall|s: int| 0 <= s < streams@.len() ==> (#[trigger] streams@[s]).wf(),
            forall|s: int|
                0 <= s < streams@.len() ==> (#[trigger] streams@[s]).schema@ == streams@[
                    0].schema@,
            forall|p: int| 0 <= p < picks@.len() ==> (#[trigger] picks@[p]).0 < streams@.len(),
            forall|p: int|
                0 <= p < picks@.len() ==> (#[trigger] picks@[p]).1 < streams@[(picks@[
                    p]).0 as int].num_rows,
            ncols == streams@[0].schema@.len(),
            total == picks@.len(),
            columns@.len() == c,
            schema_out@.len() == c,
            forall|w: int| 0 <= w < c ==> #[trigger] schema_out@[w] == streams@[0].schema@[w],
            forall|w: int| 0 <= w < c ==> (#[trigger] columns@[w]).wf(),
            forall|w: int| 0 <= w < c ==> (#[trigger] columns@[w]).len_spec() == total,
            forall|w: int|
                0 <= w < c ==> (#[trigger] columns@[w]).matches_type_spec(
                    streams@[0].schema@[w],
                ),
            forall|w: int, p: int|
                0 <= w < c && 0 <= p < total ==> (#[trigger] columns@[w].cell(p)) == streams@[(
                picks@[p]).0 as int].columns@[w].cell((picks@[p]).1 as int),
        decreases ncols - c,
    {
        let dt = streams[0].schema[c];
        let col: Column = match dt {
            DataType::Bool => {
                let mut opts: Vec<Option<bool>> = Vec::new();
                let mut p: usize = 0;
                while p < total
                    invariant
                        0 <= p <= total,
                        streams@.len() >= 1,
                        forall|s: int|
                            0 <= s < streams@.len() ==> (#[trigger] streams@[s]).wf(),
                        forall|s: int|
                            0 <= s < streams@.len() ==> (#[trigger] streams@[s]).schema@
                                == streams@[0].schema@,
                        forall|p2: int|
                            0 <= p2 < picks@.len() ==> (#[trigger] picks@[p2]).0
                                < streams@.len(),
                        forall|p2: int|
                            0 <= p2 < picks@.len() ==> (#[trigger] picks@[p2]).1 < streams@[(
                            picks@[p2]).0 as int].num_rows,
                        c < ncols,
                        ncols == streams@[0].schema@.len(),
                        streams@[0].schema@[c as int] == DataType::Bool,
                        total == picks@.len(),
                        opts@.len() == p,
                        forall|p2: int|
                            0 <= p2 < p ==> (match #[trigger] opts@[p2] {
                                Some(v) => Cell::Bool(v),
                                None => Cell::Null,
                            }) == streams@[(picks@[p2]).0 as int].columns@[c as int].cell((
                            picks@[p2]).1 as int),
                    decreases total - p,
                {
                    let (ps, pi) = picks[p];
                    proof {
                        assert(streams@[ps as int].wf());
                        assert(streams@[ps as int].columns@[c as int].matches_type_spec(
                            DataType::Bool,
                        ));
                    }
                    match &streams[ps].columns[c] {
                        Column::Bool(bc) => {
                            if bc.is_null(pi) {
                                opts.push(None);
                            } else {
                                opts.push(Some(bc.value(pi)));
                            }
                        },
                        _ => {
                            proof {
                                assert(false);
                            }
                            opts.push(None);
                        },
                    }
                    p += 1;
                }
                let bcol = crate::data::BoolColumn::from_options(opts);
                proof {
                    assert forall|p2: int|
                        0 <= p2 < total implies bcol.cell(p2) == streams@[(picks@[
                        p2]).0 as int].columns@[c as int].cell((picks@[p2]).1 as int) by {}
                }
                Column::Bool(bcol)
            },
            DataType::Int64 => {
                let mut values: Vec<i64> = Vec::new();
                let mut valid: Vec<bool> = Vec::new();
                let mut p: usize = 0;
                while p < total
                    invariant
                        0 <= p <= total,
                        streams@.len() >= 1,
                        forall|s: int|
                            0 <= s < streams@.len() ==> (#[trigger] streams@[s]).wf(),
                        forall|s: int|
                            0 <= s < streams@.len() ==> (#[trigger] streams@[s]).schema@
                                == streams@[0].schema@,
                        forall|p2: int|
                            0 <= p2 < picks@.len() ==> (#[trigger] picks@[p2]).0
                                < streams@.len(),
                        forall|p2: int|
                            0 <= p2 < picks@.len() ==> (#[trigger] picks@[p2]).1 < streams@[(
                            picks@[p2]).0 as int].num_rows,
                        c < ncols,
                        ncols == streams@[0].schema@.len(),
                        streams@[0].schema@[c as int] == DataType::Int64,
                        total == picks@.len(),
                        values@.len() == p,
                        valid@.len() == p,
                        forall|p2: int|
                            0 <= p2 < p ==> (if #[trigger] valid@[p2] {
                                Cell::Int(values@[p2])
                            } else {
                                Cell::Null
                            }) == streams@[(picks@[p2]).0 as int].columns@[c as int].cell((
                            picks@[p2]).1 as int),
                    decreases total - p,
                {
                    let ghost ov = values@;
                    let ghost od = valid@;
                    let (ps, pi) = picks[p];
                    proof {
                        assert(streams@[ps as int].wf());
                        assert(streams@[ps as int].columns@[c as int].matches_type_spec(
                            DataType::Int64,
                        ));
                    }
                    match &streams[ps].columns[c] {
                        Column::Int64(pc) => {
                            if pc.is_null(pi) {
                                values.push(0);
                                valid.push(false);
                            } else {
                                values.push(pc.value(pi));
                                valid.push(true);
                            }
                        },
                        _ => {
                            proof {
                                assert(false);
                            }
                            values.push(0);
                            valid.push(false);
                        },
                    }
                    p += 1;
                    proof {
                        assert forall|p2: int|
                            0 <= p2 < p implies (if #[trigger] valid@[p2] {
                            Cell::Int(values@[p2])
                        } else {
                            Cell::Null
                        }) == streams@[(picks@[p2]).0 as int].columns@[c as int].cell((picks@[
                            p2]).1 as int) by {
                            if p2 < p - 1 {
                                assert(values@[p2] == ov[p2]);
                                assert(valid@[p2] == od[p2]);
                                assert((if od[p2] {
                                    Cell::Int(ov[p2])
                                } else {
                                    Cell::Null
                                }) == streams@[(picks@[p2]).0 as int].columns@[c as int].cell((
                                picks@[p2]).1 as int));
                            }
                        }
                    }
                }
                Column::Int64(crate::data::PrimitiveColumn { values, valid })
            },
            _ => {
                let mut values: Vec<Vec<u8>> = Vec::new();
                let mut valid: Vec<bool> = Vec::new();
                let mut p: usize = 0;
                while p < total
                    invariant
                        0 <= p <= total,
                        streams@.len() >= 1,
                        forall|s: int|
                            0 <= s < streams@.len() ==> (#[trigger] streams@[s]).wf(),
                        forall|s: int|
                            0 <= s < streams@.len() ==> (#[trigger] streams@[s]).schema@
                                == streams@[0].schema@,
                        forall|p2: int|
                            0 <= p2 < picks@.len() ==> (#[trigger] picks@[p2]).0
                                < streams@.len(),
                        forall|p2: int|
                            0 <= p2 < picks@.len() ==> (#[trigger] picks@[p2]).1 < streams@[(
                            picks@[p2]).0 as int].num_rows,
                        c < ncols,
                        ncols == streams@[0].schema@.len(),
                        streams@[0].schema@[c as int] == DataType::Bytes || streams@[0].schema@[
                            c as int] == DataType::BytesView,
                        total == picks@.len(),
                        values@.len() == p,
                        valid@.len() == p,
                        forall|p2: int|
                            0 <= p2 < p ==> (if #[trigger] valid@[p2] {
                                Cell::Bytes(values@[p2]@)
                            } else {
                                Cell::Null
                            }) == streams@[(picks@[p2]).0 as int].columns@[c as int].cell((
                            picks@[p2]).1 as int),
                    decreases total - p,
                {
                    let ghost ov = values@;
                    let ghost od = valid@;
                    let (ps, pi) = picks[p];
                    proof {
                        assert(streams@[ps as int].wf());
                        assert(streams@[ps as int].columns@[c as int].matches_type_spec(
                            streams@[0].schema@[c as int],
                        ));
                    }
                    match &streams[ps].columns[c] {
                        Column::Bytes(bc) => {
                            if bc.is_null(pi) {
                                values.push(Vec::new());
                                valid.push(false);
                            } else {
                                let v = bc.value(pi);
                                let mut copy: Vec<u8> = Vec::new();
                                copy.extend_from_slice(v.as_slice());
                                proof {
                                    assert(copy@ =~= v@);
                                }
                                values.push(copy);
                                valid.push(true);
                            }
                        },
                        _ => {
                            proof {
                                assert(false);
                            }
                            values.push(Vec::new());
                            valid.push(false);
                        },
                    }
                    p += 1;
                    proof {
                        assert forall|p2: int|
                            0 <= p2 < p implies (if #[trigger] valid@[p2] {
                            Cell::Bytes(values@[p2]@)
                        } else {
                            Cell::Null
                        }) == streams@[(picks@[p2]).0 as int].columns@[c as int].cell((picks@[
                            p2]).1 as int) by {
                            if p2 < p - 1 {
                                assert(values@[p2] == ov[p2]);
                                assert(valid@[p2] == od[p2]);
                                assert((if od[p2] {
                                    Cell::Bytes(ov[p2]@)
                                } else {
                                    Cell::Null
                                }) == streams@[(picks@[p2]).0 as int].columns@[c as int].cell((
                                picks@[p2]).1 as int));
                            }
                        }
                    }
                }
                Column::Bytes(crate::data::BytesColumn { values, valid })
            },
        };
        columns.push(col);
        schema_out.push(dt);
        c += 1;
    }
    proof {
        assert(schema_out@ =~= streams@[0].schema@);
    }
    let r = RecordBatch { schema: schema_out, columns, num_rows: total };
    proof {
        assert forall|p: int| 0 <= p < picks@.len() implies #[trigger] r.row(p) == streams@[(
        picks@[p]).0 as int].row((picks@[p]).1 as int) by {
            assert(streams@[(picks@[p]).0 as int].wf());
            assert(r.row(p) =~= streams@[(picks@[p]).0 as int].row((picks@[p]).1 as int));
        }
    }
    r
}

/// Merge law, SQL order: under the derived sort fields, consecutive picks
/// of a stable merge compare no greater in the SQL row order — the output
/// is sorted by the sort expressions, not merely by encoded bytes.
pub proof fn lemma_merge_output_sql_sorted(
    streams: Seq<RecordBatch>,
    exprs: Seq<SortKey>,
    picks: Seq<(usize, usize)>,
    p: int,
    q: int,
)
    requires
        streams.len() >= 1,
        forall|s: int| 0 <= s < streams.len() ==> (#[trigger] streams[s]).wf(),
        forall|s: int|
            0 <= s < streams.len() ==> (#[trigger] streams[s]).schema@ == streams[0].schema@,
        forall|f: int|
            0 <= f < exprs.len() ==> (#[trigger] exprs[f]).column < streams[0].schema@.len(),
        is_stable_merge(streams, exprs, derived_fields(streams[0].schema@, exprs), picks),
        0 <= p < q < picks.len(),
    ensures
        crate::encoder::cmp_rows(
            derived_fields(streams[0].schema@, exprs),
            key_cells(exprs, streams[picks[p].0 as int], picks[p].1 as int),
            key_cells(exprs, streams[picks[q].0 as int], picks[q].1 as int),
        ) <= 0,
{
    let fields = derived_fields(streams[0].schema@, exprs);
    let a = key_cells(exprs, streams[picks[p].0 as int], picks[p].1 as int);
    let b = key_cells(exprs, streams[picks[q].0 as int], picks[q].1 as int);
    assert(crate::encoder::row_matches(fields, a)) by {
        assert forall|f: int|
            0 <= f < fields.len() implies crate::encoder::cell_matches(
            a[f],
            (#[trigger] fields[f]).data_type,
        ) by {
            let st = streams[picks[p].0 as int];
            crate::data::lemma_column_cells_match(
                st.columns@[exprs[f].column as int],
                fields[f].data_type,
                picks[p].1 as int,
            );
        }
    }
    assert(crate::encoder::row_matches(fields, b)) by {
        assert forall|f: int|
            0 <= f < fields.len() implies crate::encoder::cell_matches(
            b[f],
            (#[trigger] fields[f]).data_type,
        ) by {
            let st = streams[picks[q].0 as int];
            crate::data::lemma_column_cells_match(
                st.columns@[exprs[f].column as int],
                fields[f].data_type,
                picks[q].1 as int,
            );
        }
    }
    crate::encoder::lemma_encoded_order(fields, a, b);
    crate::encoder::lemma_encoded_order(fields, b, a);
    let ka = stream_key(streams, exprs, fields, picks[p].0 as int, picks[p].1 as int);
    let kb = stream_key(streams, exprs, fields, picks[q].0 as int, picks[q].1 as int);
    assert(lex_le(ka, kb));
    lemma_lex_trichotomy(ka, kb);
    if !lex_lt(ka, kb) {
        assert(ka =~= kb);
    }
}

} // verus!
