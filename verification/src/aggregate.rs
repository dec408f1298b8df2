//! The hash-based grouping aggregator: resolves each input row to a dense
//! group index via a hash table verified by column equality, dispatches
//! rows to accumulators in vectorized form, and emits the final batches.

use vstd::prelude::*;

use crate::builders::{
    cell_eq, ByteGroupValueBuilder, GroupColumn, OutputType, PrimitiveGroupValueBuilder,
};
use crate::data::{
    sat_add, sat_add_spec, Cell, Column, DataType, MemoryReservation, RecordBatch, SortField,
    SortOptions,
};
use crate::error::ExecError;

verus! {

/// The aggregation phases: consuming raw input or pre-aggregated state,
/// and emitting intermediate state or final values.
#[derive(Clone, Copy, PartialEq, Eq, Structural, Debug)]
pub enum AggregateMode {
    Partial,
    Single,
    Final,
    FinalPartitioned,
}

/// The aggregate functions the engine evaluates itself.
#[derive(Clone, Copy, PartialEq, Eq, Structural, Debug)]
pub enum AggKind {
    Sum,
    Count,
}

/// One row absorbed by the aggregator, as specification state: its group
/// key cells, the 64-bit hash computed for it, one argument cell per
/// accumulator, and per accumulator whether the row passed that
/// aggregate's filter.
pub ghost struct AggRow {
    pub key: Seq<Cell>,
    pub hash: u64,
    pub args: Seq<Cell>,
    pub pass: Seq<bool>,
}

/// Whether two group keys are the same group: cell by cell, nulls equal
/// to each other and distinct from every value.
pub open spec fn keys_match(a: Seq<Cell>, b: Seq<Cell>) -> bool {
    a.len() == b.len() && forall|i: int| 0 <= i < a.len() ==> cell_eq(#[trigger] a[i], b[i])
}

/// The distinct groups of a row sequence, in first-observation order,
/// each with the hash it was stored under. A row joins an existing group
/// only when both the hash and the key match.
pub open spec fn groups_of(rows: Seq<AggRow>) -> Seq<(Seq<Cell>, u64)>
    decreases rows.len(),
{
    if rows.len() == 0 {
        Seq::empty()
    } else {
        let p = groups_of(rows.drop_last());
        if has_group(p, rows.last().key, rows.last().hash) {
            p
        } else {
            p.push((rows.last().key, rows.last().hash))
        }
    }
}

/// Whether some group matches the key under the hash.
pub open spec fn has_group(groups: Seq<(Seq<Cell>, u64)>, key: Seq<Cell>, hash: u64) -> bool {
    exists|g: int| 0 <= g < groups.len() && (#[trigger] groups[g]).1 == hash && keys_match(groups[g].0, key)
}

/// The index of the first group matching the key under the hash.
pub open spec fn resolve_group(groups: Seq<(Seq<Cell>, u64)>, key: Seq<Cell>, hash: u64) -> int
    decreases groups.len(),
{
    if groups.len() == 0 {
        0
    } else {
        if has_group(groups.drop_last(), key, hash) {
            resolve_group(groups.drop_last(), key, hash)
        } else {
            groups.len() - 1
        }
    }
}

/// The group index assigned to row `r` of the sequence: resolved against
/// the groups of the rows up to and including `r`.
pub open spec fn row_group(rows: Seq<AggRow>, r: int) -> int {
    resolve_group(groups_of(rows.take(r + 1)), rows[r].key, rows[r].hash)
}

/// The mathematical accumulator state of one aggregate over a row
/// sequence: per group, the integer sum of the argument cells of the
/// rows resolved to that group (nulls skipped), and how many non-null
/// argument cells arrived.
pub open spec fn agg_sum(rows: Seq<AggRow>, a: int, g: int) -> int
    decreases rows.len(),
{
    if rows.len() == 0 {
        0
    } else {
        let prev = agg_sum(rows.drop_last(), a, g);
        if row_group(rows, rows.len() - 1) == g && rows.last().pass[a] {
            match rows.last().args[a] {
                Cell::Int(v) => prev + v,
                _ => prev,
            }
        } else {
            prev
        }
    }
}

/// How many rows of group `g` carried a non-null argument for aggregate
/// `a`.
pub open spec fn agg_count(rows: Seq<AggRow>, a: int, g: int) -> nat
    decreases rows.len(),
{
    if rows.len() == 0 {
        0
    } else {
        let prev = agg_count(rows.drop_last(), a, g);
        if row_group(rows, rows.len() - 1) == g && rows.last().pass[a] && !(rows.last().args[
            a] is Null) {
            prev + 1
        } else {
            prev
        }
    }
}

/// Appending rows never touches the groups already assigned.
pub proof fn lemma_groups_of_prefix(rows: Seq<AggRow>, k: int)
    requires
        0 <= k <= rows.len(),
    ensures
        groups_of(rows).len() >= groups_of(rows.take(k)).len(),
        forall|g: int|
            0 <= g < groups_of(rows.take(k)).len() ==> #[trigger] groups_of(rows)[g]
                == groups_of(rows.take(k))[g],
    decreases rows.len() - k,
{
    if k < rows.len() {
        lemma_groups_of_prefix(rows, k + 1);
        assert(rows.take(k + 1).drop_last() =~= rows.take(k));
        assert(rows.take(k + 1).last() == rows[k]);
        assert(groups_of(rows.take(k + 1)).len() >= groups_of(rows.take(k)).len());
    } else {
        assert(rows.take(k) =~= rows);
    }
}

/// Every group's key has as many cells as every row's key.
pub proof fn lemma_groups_key_len(rows: Seq<AggRow>, k: nat)
    requires
        forall|r: int| 0 <= r < rows.len() ==> (#[trigger] rows[r]).key.len() == k,
    ensures
        forall|g: int|
            0 <= g < groups_of(rows).len() ==> (#[trigger] groups_of(rows)[g]).0.len() == k,
    decreases rows.len(),
{
    if rows.len() > 0 {
        lemma_groups_key_len(rows.drop_last(), k);
        assert(rows.last().key.len() == k) by {
            assert(rows[rows.len() - 1].key.len() == k);
        }
        assert forall|g: int|
            0 <= g < groups_of(rows).len() implies (#[trigger] groups_of(rows)[g]).0.len()
                == k by {
            if g < groups_of(rows.drop_last()).len() {
                assert(groups_of(rows)[g] == groups_of(rows.drop_last())[g]);
            }
        }
    }
}

/// Every row resolves to a group that exists by the time it arrives.
pub proof fn lemma_row_group_bound(rows: Seq<AggRow>, r: int)
    requires
        0 <= r < rows.len(),
    ensures
        0 <= row_group(rows, r) < groups_of(rows.take(r + 1)).len(),
        groups_of(rows.take(r + 1)).len() <= groups_of(rows).len(),
{
    let pfx = rows.take(r + 1);
    let grps = groups_of(pfx);
    assert(pfx.drop_last() =~= rows.take(r));
    assert(pfx.last() == rows[r]);
    assert(has_group(grps, rows[r].key, rows[r].hash)) by {
        if has_group(groups_of(rows.take(r)), rows[r].key, rows[r].hash) {
            let q = choose|q: int|
                0 <= q < groups_of(rows.take(r)).len() && (#[trigger] groups_of(rows.take(r))[
                    q]).1 == rows[r].hash && keys_match(groups_of(rows.take(r))[q].0, rows[r].key);
            assert(grps[q] == groups_of(rows.take(r))[q]);
        } else {
            lemma_keys_match_self(rows[r].key);
            assert(grps[grps.len() - 1] == (rows[r].key, rows[r].hash));
        }
    }
    lemma_resolve_first(grps, rows[r].key, rows[r].hash);
    lemma_groups_of_prefix(rows, r + 1);
}

/// A group index beyond the assigned groups has absorbed nothing.
pub proof fn lemma_agg_zero_beyond_groups(rows: Seq<AggRow>, a: int, g: int)
    requires
        g >= groups_of(rows).len(),
    ensures
        agg_sum(rows, a, g) == 0,
        agg_count(rows, a, g) == 0,
    decreases rows.len(),
{
    if rows.len() > 0 {
        assert(groups_of(rows.drop_last()).len() <= groups_of(rows).len());
        lemma_agg_zero_beyond_groups(rows.drop_last(), a, g);
        lemma_row_group_bound(rows, rows.len() - 1);
        assert(rows.take(rows.len() as int) =~= rows);
        assert(row_group(rows, rows.len() - 1) != g);
    }
}

/// An accumulator owning per-group intermediate state for one aggregate
/// expression: running sums and non-null counts.
pub struct Accumulator {
    pub kind: AggKind,
    pub sums: Vec<i64>,
    pub counts: Vec<u64>,
}

impl Accumulator {
    pub open spec fn wf(&self) -> bool {
        self.sums@.len() == self.counts@.len()
    }

    pub open spec fn num_groups(&self) -> nat {
        self.sums@.len()
    }

    pub fn new(kind: AggKind) -> (r: Self)
        ensures
            r.wf(),
            r.kind == kind,
            r.num_groups() == 0,
    {
        Accumulator { kind, sums: Vec::new(), counts: Vec::new() }
    }

    /// Grow the per-group state with zeroed slots up to the total number
    /// of groups.
    pub fn ensure_groups(&mut self, total_num_groups: usize)
        requires
            old(self).wf(),
        ensures
            final(self).wf(),
            final(self).kind == old(self).kind,
            final(self).num_groups() == (if old(self).num_groups() >= total_num_groups {
                old(self).num_groups()
            } else {
                total_num_groups as nat
            }),
            forall|g: int|
                0 <= g < old(self).num_groups() ==> #[trigger] final(self).sums@[g]
                    == old(self).sums@[g],
            forall|g: int|
                0 <= g < old(self).num_groups() ==> #[trigger] final(self).counts@[g]
                    == old(self).counts@[g],
            forall|g: int|
                old(self).num_groups() <= g < final(self).num_groups()
                    ==> #[trigger] final(self).sums@[g] == 0,
            forall|g: int|
                old(self).num_groups() <= g < final(self).num_groups()
                    ==> #[trigger] final(self).counts@[g] == 0,
    {
        let ghost init = *old(self);
        while self.sums.len() < total_num_groups
            invariant
                self.wf(),
                self.kind == init.kind,
                init.wf(),
                init.num_groups() <= self.num_groups(),
                self.num_groups() <= (if init.num_groups() >= total_num_groups {
                    init.num_groups()
                } else {
                    total_num_groups as nat
                }),
                forall|g: int|
                    0 <= g < init.num_groups() ==> #[trigger] self.sums@[g] == init.sums@[g],
                forall|g: int|
                    0 <= g < init.num_groups() ==> #[trigger] self.counts@[g] == init.counts@[g],
                forall|g: int|
                    init.num_groups() <= g < self.num_groups() ==> #[trigger] self.sums@[g] == 0,
                forall|g: int|
                    init.num_groups() <= g < self.num_groups() ==> #[trigger] self.counts@[g]
                        == 0,
            decreases total_num_groups - self.sums.len(),
        {
            let ghost os = self.sums@;
            let ghost oc = self.counts@;
            self.sums.push(0);
            self.counts.push(0);
            proof {
                assert forall|g: int|
                    0 <= g < init.num_groups() implies #[trigger] self.sums@[g]
                        == init.sums@[g] by {
                    assert(self.sums@[g] == os[g]);
                }
                assert forall|g: int|
                    0 <= g < init.num_groups() implies #[trigger] self.counts@[g]
                        == init.counts@[g] by {
                    assert(self.counts@[g] == oc[g]);
                }
                assert forall|g: int|
                    init.num_groups() <= g < self.num_groups() implies #[trigger] self.sums@[g]
                        == 0 by {
                    if g < os.len() {
                        assert(self.sums@[g] == os[g]);
                    }
                }
                assert forall|g: int|
                    init.num_groups() <= g < self.num_groups() implies #[trigger] self.counts@[g]
                        == 0 by {
                    if g < oc.len() {
                        assert(self.counts@[g] == oc[g]);
                    }
                }
            }
        }
    }

    /// Absorb one value for one group: add a non-null value to the sum
    /// and count it; skip a null. Fails exactly when the running sum
    /// leaves the 64-bit range.
    pub fn update_one(&mut self, g: usize, value: Option<i64>) -> (r: Result<(), ExecError>)
        requires
            old(self).wf(),
            g < old(self).num_groups(),
        ensures
            final(self).wf(),
            final(self).kind == old(self).kind,
            final(self).num_groups() == old(self).num_groups(),
            forall|w: int|
                0 <= w < old(self).num_groups() && w != g ==> #[trigger] final(self).sums@[w]
                    == old(self).sums@[w],
            forall|w: int|
                0 <= w < old(self).num_groups() && w != g ==> #[trigger] final(self).counts@[w]
                    == old(self).counts@[w],
            r is Ok <==> (match value {
                Some(v) => i64::MIN <= old(self).sums@[g as int] + v <= i64::MAX
                    && old(self).counts@[g as int] < u64::MAX,
                None => true,
            }),
            r is Err ==> r == Result::<(), ExecError>::Err(ExecError::Overflow) && *final(self)
                == *old(self),
            r is Ok ==> (match value {
                Some(v) => final(self).sums@[g as int] == old(self).sums@[g as int] + v
                    && final(self).counts@[g as int] == old(self).counts@[g as int] + 1,
                None => final(self).sums@[g as int] == old(self).sums@[g as int]
                    && final(self).counts@[g as int] == old(self).counts@[g as int],
            }),
    {
        match value {
            Some(v) => {
                let s = self.sums[g];
                let c = self.counts[g];
                if (v >= 0 && s > i64::MAX - v) || (v < 0 && s < i64::MIN - v) || c == u64::MAX {
                    return Err(ExecError::Overflow);
                }
                self.sums[g] = s + v;
                self.counts[g] = c + 1;
                Ok(())
            },
            None => Ok(()),
        }
    }

    /// The value this accumulator reports for a group: the sum (null when
    /// no non-null value arrived) or the count.
    pub open spec fn value_of(&self, g: int) -> Cell {
        match self.kind {
            AggKind::Sum => if self.counts@[g] == 0 {
                Cell::Null
            } else {
                Cell::Int(self.sums@[g])
            },
            AggKind::Count => if self.counts@[g] <= i64::MAX {
                Cell::Int(self.counts@[g] as i64)
            } else {
                Cell::Null
            },
        }
    }

    /// Emit the final column: per group the sum, or the count of non-null
    /// inputs.
    pub fn evaluate(&self) -> (r: Column)
        requires
            self.wf(),
        ensures
            r.wf(),
            r is Int64,
            r.len_spec() == self.num_groups(),
            forall|g: int| 0 <= g < self.num_groups() ==> r.cell(g) == self.value_of(g),
    {
        let n = self.sums.len();
        let mut values: Vec<i64> = Vec::new();
        let mut valid: Vec<bool> = Vec::new();
        let mut g: usize = 0;
        while g < n
            invariant
                0 <= g <= n,
                self.wf(),
                n == self.num_groups(),
                values@.len() == g,
                valid@.len() == g,
                forall|w: int|
                    0 <= w < g ==> (if #[trigger] valid@[w] {
                        Cell::Int(values@[w])
                    } else {
                        Cell::Null
                    }) == self.value_of(w),
            decreases n - g,
        {
            let ghost ov = values@;
            let ghost od = valid@;
            match self.kind {
                AggKind::Sum => {
                    if self.counts[g] == 0 {
                        values.push(0);
                        valid.push(false);
                    } else {
                        values.push(self.sums[g]);
                        valid.push(true);
                    }
                },
                AggKind::Count => {
                    let c = self.counts[g];
                    if c <= i64::MAX as u64 {
                        values.push(c as i64);
                        valid.push(true);
                    } else {
                        values.push(0);
                        valid.push(false);
                    }
                },
            }
            g += 1;
            proof {
                assert forall|w: int|
                    0 <= w < g implies (if #[trigger] valid@[w] {
                    Cell::Int(values@[w])
                } else {
                    Cell::Null
                }) == self.value_of(w) by {
                    if w < g - 1 {
                        assert(values@[w] == ov[w]);
                        assert(valid@[w] == od[w]);
                        assert((if od[w] {
                            Cell::Int(ov[w])
                        } else {
                            Cell::Null
                        }) == self.value_of(w));
                    }
                }
            }
        }
        Column::Int64(crate::data::PrimitiveColumn { values, valid })
    }

    /// The bytes this accumulator holds: the sums and the counts.
    pub fn size(&self) -> (r: usize)
        ensures
            r as nat == acc_size_spec(*self),
    {
        sat_add(
            sat_add(self.sums.len(), self.sums.len()),
            sat_add(self.counts.len(), self.counts.len()),
        )
    }
}

/// The bytes an accumulator holds.
pub open spec fn acc_size_spec(a: Accumulator) -> nat {
    sat_add_spec(
        sat_add_spec(a.sums@.len(), a.sums@.len()),
        sat_add_spec(a.counts@.len(), a.counts@.len()),
    )
}

impl Accumulator {
}

/// Relies on ahash::RandomState::new and hash_one: four values derived
/// from a randomly seeded hasher state, drawn once per operator. Nothing
/// is assumed of the values.
#[verifier::external_body]
fn draw_seeds() -> (u64, u64, u64, u64) {
    let rs = ahash::RandomState::new();
    (rs.hash_one(0u64), rs.hash_one(1u64), rs.hash_one(2u64), rs.hash_one(3u64))
}

/// The 64-bit hash ahash computes for these bytes under the four seeds.
pub uninterp spec fn hash_of(k0: u64, k1: u64, k2: u64, k3: u64, bytes: Seq<u8>) -> u64;

/// Relies on ahash::RandomState::with_seeds and hash_one: per ahash's
/// documentation, states built with the same four seeds produce identical
/// hashers, so the result is a function of the seeds and the hashed bytes
/// alone.
#[verifier::external_body]
fn hash_with_seeds(k0: u64, k1: u64, k2: u64, k3: u64, bytes: &Vec<u8>) -> (r: u64)
    ensures
        r == hash_of(k0, k1, k2, k3, bytes@),
{
    ahash::RandomState::with_seeds(k0, k1, k2, k3).hash_one(bytes.as_slice())
}

/// The first matching group is the resolved one.
pub proof fn lemma_resolve_first(groups: Seq<(Seq<Cell>, u64)>, key: Seq<Cell>, hash: u64)
    requires
        has_group(groups, key, hash),
    ensures
        ({
            let r = resolve_group(groups, key, hash);
            &&& 0 <= r < groups.len()
            &&& groups[r].1 == hash
            &&& keys_match(groups[r].0, key)
            &&& forall|j: int|
                0 <= j < r ==> !((#[trigger] groups[j]).1 == hash && keys_match(groups[j].0, key))
        }),
    decreases groups.len(),
{
    if has_group(groups.drop_last(), key, hash) {
        lemma_resolve_first(groups.drop_last(), key, hash);
        let r = resolve_group(groups.drop_last(), key, hash);
        assert(groups[r] == groups.drop_last()[r]);
        assert forall|j: int|
            0 <= j < r implies !((#[trigger] groups[j]).1 == hash && keys_match(
            groups[j].0,
            key,
        )) by {
            assert(groups[j] == groups.drop_last()[j]);
        }
    } else {
        let w = choose|w: int|
            0 <= w < groups.len() && (#[trigger] groups[w]).1 == hash && keys_match(
                groups[w].0,
                key,
            );
        assert(w == groups.len() - 1) by {
            if w < groups.len() - 1 {
                assert(groups.drop_last()[w] == groups[w]);
                assert(has_group(groups.drop_last(), key, hash));
            }
        }
        assert forall|j: int|
            0 <= j < groups.len() - 1 implies !((#[trigger] groups[j]).1 == hash && keys_match(
            groups[j].0,
            key,
        )) by {
            if groups[j].1 == hash && keys_match(groups[j].0, key) {
                assert(groups.drop_last()[j] == groups[j]);
                assert(has_group(groups.drop_last(), key, hash));
            }
        }
    }
}

/// A key matches itself under the null-equality rule.
pub proof fn lemma_keys_match_self(k: Seq<Cell>)
    ensures
        keys_match(k, k),
{
    assert forall|i: int| 0 <= i < k.len() implies cell_eq(#[trigger] k[i], k[i]) by {
        match k[i] {
            Cell::Null => {},
            Cell::Int(_) => {},
            Cell::Bytes(_) => {},
            Cell::Bool(_) => {},
        }
    }
}

/// Grouping law, null keys: keys that are null in every column belong to
/// one group — they match each other — and never match a key with any
/// non-null column.
pub proof fn lemma_null_keys_group_together(k1: Seq<Cell>, k2: Seq<Cell>)
    requires
        k1.len() == k2.len(),
        forall|i: int| 0 <= i < k1.len() ==> #[trigger] k1[i] is Null,
    ensures
        (forall|i: int| 0 <= i < k2.len() ==> #[trigger] k2[i] is Null) ==> keys_match(k1, k2),
        (exists|i: int| 0 <= i < k2.len() && !(#[trigger] k2[i] is Null)) ==> !keys_match(k1, k2),
{
    if forall|i: int| 0 <= i < k2.len() ==> #[trigger] k2[i] is Null {
        assert forall|i: int| 0 <= i < k1.len() implies cell_eq(#[trigger] k1[i], k2[i]) by {}
    }
    if exists|i: int| 0 <= i < k2.len() && !(#[trigger] k2[i] is Null) {
        let w = choose|w: int| 0 <= w < k2.len() && !(#[trigger] k2[w] is Null);
        assert(!cell_eq(k1[w], k2[w]));
    }
}

/// The count a Count accumulator reports per mode: merging pre-aggregated
/// counts sums them; raw input counts non-null rows.
pub open spec fn count_spec(mode: AggregateMode, kind: AggKind, rows: Seq<AggRow>, a: int, g: int) -> int {
    if kind == AggKind::Count && (mode == AggregateMode::Final || mode
        == AggregateMode::FinalPartitioned) {
        agg_sum(rows, a, g)
    } else {
        agg_count(rows, a, g) as int
    }
}

/// The kinds of a list of accumulators.
pub open spec fn acc_kinds(accs: Seq<Accumulator>) -> Seq<AggKind> {
    accs.map_values(|a: Accumulator| a.kind)
}

/// Whether absorbing row `r` keeps accumulator `a` within its 64-bit
/// bounds: the running sum stays in signed range, and the running count
/// (the non-null count, or for merged counts the summed partial counts)
/// stays in unsigned range.
pub open spec fn row_acc_ok(
    mode: AggregateMode,
    kind: AggKind,
    rows: Seq<AggRow>,
    r: int,
    a: int,
) -> bool {
    rows[r].pass[a] ==> match rows[r].args[a] {
        Cell::Int(v) => {
            let g = row_group(rows, r);
            let ps = agg_sum(rows.take(r), a, g);
            let pc = count_spec(mode, kind, rows.take(r), a, g);
            &&& i64::MIN <= ps + v <= i64::MAX
            &&& (if kind == AggKind::Count && (mode == AggregateMode::Final || mode
                == AggregateMode::FinalPartitioned) {
                pc + v <= u64::MAX
            } else {
                pc < u64::MAX
            })
        },
        _ => true,
    }
}

/// Whether absorbing row `r` keeps every accumulator within bounds.
pub open spec fn row_fold_ok(
    mode: AggregateMode,
    kinds: Seq<AggKind>,
    rows: Seq<AggRow>,
    r: int,
) -> bool {
    forall|a: int| 0 <= a < kinds.len() ==> row_acc_ok(mode, kinds[a], rows, r, a)
}

/// Whether absorbing the rows from `from` on keeps every accumulator
/// within bounds at every step.
pub open spec fn folds_ok_from(
    mode: AggregateMode,
    kinds: Seq<AggKind>,
    rows: Seq<AggRow>,
    from: int,
) -> bool {
    forall|r: int| from <= r < rows.len() ==> row_fold_ok(mode, kinds, rows, r)
}

/// Whether, in a mode that merges pre-aggregated state, some counted
/// argument cell of the batch is negative — merged counts must be
/// non-negative.
pub open spec fn has_negative_merge_arg(
    mode: AggregateMode,
    kinds: Seq<AggKind>,
    agg_args: Seq<usize>,
    batch: RecordBatch,
) -> bool {
    &&& (mode == AggregateMode::Final || mode == AggregateMode::FinalPartitioned)
    &&& exists|a: int, i: int|
        0 <= a < kinds.len() && 0 <= i < batch.num_rows && kinds[a] == AggKind::Count && ((
        #[trigger] batch.columns@[agg_args[a] as int].cell(i)) matches Cell::Int(v) && v < 0)
}

/// The bytes the group builders hold, from builder `i` on, added to `acc`.
pub open spec fn builders_size_from(bs: Seq<GroupColumn>, acc: nat, i: int) -> nat
    decreases bs.len() - i,
{
    if i < 0 || i >= bs.len() {
        acc
    } else {
        builders_size_from(bs, sat_add_spec(acc, crate::builders::builder_size_spec(bs[i])), i + 1)
    }
}

/// The bytes the accumulators hold, from accumulator `i` on, added to
/// `acc`.
pub open spec fn accs_size_from(accs: Seq<Accumulator>, acc: nat, i: int) -> nat
    decreases accs.len() - i,
{
    if i < 0 || i >= accs.len() {
        acc
    } else {
        accs_size_from(accs, sat_add_spec(acc, acc_size_spec(accs[i])), i + 1)
    }
}

/// The aggregator's byte footprint: the builders, the accumulators, and
/// the hash table entries, added up with saturation.
pub open spec fn agg_footprint(
    builders: Seq<GroupColumn>,
    accs: Seq<Accumulator>,
    maplen: nat,
) -> nat {
    sat_add_spec(
        accs_size_from(accs, builders_size_from(builders, 0, 0), 0),
        sat_add_spec(maplen, maplen),
    )
}

/// A row's bound check reads only the rows up to and including it.
pub proof fn lemma_row_fold_ok_prefix(
    mode: AggregateMode,
    kinds: Seq<AggKind>,
    rows: Seq<AggRow>,
    ext: Seq<AggRow>,
    r: int,
)
    requires
        0 <= r < rows.len(),
        rows.len() <= ext.len(),
        forall|q: int| 0 <= q < rows.len() ==> #[trigger] ext[q] == rows[q],
    ensures
        row_fold_ok(mode, kinds, ext, r) == row_fold_ok(mode, kinds, rows, r),
{
    assert(ext.take(r) =~= rows.take(r));
    assert(ext.take(r + 1) =~= rows.take(r + 1));
    assert(ext[r] == rows[r]);
    assert forall|a: int|
        0 <= a < kinds.len() implies row_acc_ok(mode, kinds[a], ext, r, a) == row_acc_ok(
        mode,
        kinds[a],
        rows,
        r,
        a,
    ) by {}
}

/// The aggregation phase: consuming input, draining buffered output, or
/// finished.
pub enum ExecutionState {
    ReadingInput,
    ProducingOutput(RecordBatch),
    Done,
}

/// The hash-based grouping aggregator. The hash table stores only
/// `(hash, group index)` pairs; key identity is verified by the group
/// builders' column equality, so the table never holds the keys
/// themselves.
pub struct GroupedHashAggregate {
    pub mode: AggregateMode,
    pub input_schema: Vec<DataType>,
    pub schema: Vec<DataType>,
    pub group_cols: Vec<usize>,
    pub agg_args: Vec<usize>,
    pub filters: Vec<Option<usize>>,
    pub builders: Vec<GroupColumn>,
    pub map: Vec<(u64, usize)>,
    pub accumulators: Vec<Accumulator>,
    pub key_fields: Vec<SortField>,
    pub seeds: (u64, u64, u64, u64),
    pub reservation: MemoryReservation,
    pub batch_size: usize,
    pub exec_state: ExecutionState,
    pub rows: Ghost<Seq<AggRow>>,
}

impl GroupedHashAggregate {
    /// The distinct groups of the rows absorbed so far.
    pub open spec fn groups(&self) -> Seq<(Seq<Cell>, u64)> {
        groups_of(self.rows@)
    }

    /// Configuration well-formedness: expressions in range, the sort
    /// fields of the key encoder derived from the group columns, the
    /// output schema the group key types followed by one integer column
    /// per aggregate.
    pub open spec fn config_wf(&self) -> bool {
        &&& self.builders@.len() == self.group_cols@.len()
        &&& self.key_fields@.len() == self.group_cols@.len()
        &&& self.agg_args@.len() == self.accumulators@.len()
        &&& self.batch_size >= 1
        &&& forall|b: int|
            0 <= b < self.group_cols@.len() ==> (#[trigger] self.group_cols@[b])
                < self.input_schema@.len()
        &&& forall|b: int|
            0 <= b < self.group_cols@.len() ==> self.input_schema@[#[trigger] self.group_cols@[
                b] as int] != DataType::Bool
        &&& forall|a: int|
            0 <= a < self.agg_args@.len() ==> (#[trigger] self.agg_args@[a])
                < self.input_schema@.len()
        &&& forall|a: int|
            0 <= a < self.agg_args@.len() ==> self.input_schema@[#[trigger] self.agg_args@[
                a] as int] == DataType::Int64
        &&& self.filters@.len() == self.accumulators@.len()
        &&& forall|a: int|
            0 <= a < self.filters@.len() ==> ((#[trigger] self.filters@[a]) matches Some(c)
                ==> c < self.input_schema@.len() && self.input_schema@[c as int]
                == DataType::Bool)
        &&& ((self.mode == AggregateMode::Final || self.mode == AggregateMode::FinalPartitioned)
            ==> forall|a: int| 0 <= a < self.filters@.len() ==> (#[trigger] self.filters@[
            a]) is None)
        &&& forall|b: int|
            0 <= b < self.key_fields@.len() ==> (#[trigger] self.key_fields@[b]) == (SortField {
                data_type: self.input_schema@[self.group_cols@[b] as int],
                options: SortOptions { descending: false, nulls_first: true },
            })
        &&& forall|b: int|
            0 <= b < self.builders@.len() ==> ((#[trigger] self.builders@[b]) is Primitive
                <==> self.input_schema@[self.group_cols@[b] as int] == DataType::Int64)
        &&& forall|b: int|
            0 <= b < self.builders@.len() ==> ((#[trigger] self.builders@[b]) matches
                GroupColumn::Primitive(p) ==> p.nullable)
        &&& self.schema@.len() == self.group_cols@.len() + self.accumulators@.len()
        &&& forall|b: int|
            0 <= b < self.group_cols@.len() ==> #[trigger] self.schema@[b] == self.input_schema@[
                self.group_cols@[b] as int]
        &&& forall|a: int|
            0 <= a < self.accumulators@.len() ==> #[trigger] self.schema@[
                self.group_cols@.len() + a] == DataType::Int64
        &&& self.reservation.wf()
    }

    /// State well-formedness: the builders hold exactly the distinct
    /// groups in first-observation order; the hash table holds one
    /// `(hash, index)` entry per group, in order; every accumulator
    /// agrees on the group cardinality and holds the mathematical fold
    /// of the absorbed rows.
    pub open spec fn state_wf(&self) -> bool {
        let groups = self.groups();
        &&& forall|b: int| 0 <= b < self.builders@.len() ==> (#[trigger] self.builders@[b]).wf()
        &&& forall|b: int|
            0 <= b < self.builders@.len() ==> (#[trigger] self.builders@[b]).len_spec()
                == groups.len()
        &&& forall|b: int, g: int|
            0 <= b < self.builders@.len() && 0 <= g < groups.len()
                ==> (#[trigger] self.builders@[b].cell(g)) == groups[g].0[b]
        &&& self.map@.len() == groups.len()
        &&& forall|j: int| 0 <= j < self.map@.len() ==> (#[trigger] self.map@[j]).0 == groups[j].1
        &&& forall|j: int| 0 <= j < self.map@.len() ==> (#[trigger] self.map@[j]).1 == j
        &&& forall|a: int|
            0 <= a < self.accumulators@.len() ==> (#[trigger] self.accumulators@[a]).wf()
        &&& forall|a: int|
            0 <= a < self.accumulators@.len() ==> (#[trigger] self.accumulators@[
                a]).num_groups() == groups.len()
        &&& forall|a: int, g: int|
            0 <= a < self.accumulators@.len() && 0 <= g < groups.len()
                ==> (#[trigger] self.accumulators@[a].sums@[g]) == agg_sum(self.rows@, a, g)
        &&& forall|a: int, g: int|
            0 <= a < self.accumulators@.len() && 0 <= g < groups.len()
                ==> (#[trigger] self.accumulators@[a].counts@[g]) == count_spec(
                self.mode,
                self.accumulators@[a].kind,
                self.rows@,
                a,
                g,
            )
        &&& forall|r: int|
            0 <= r < self.rows@.len() ==> (#[trigger] self.rows@[r]).key.len()
                == self.group_cols@.len()
        &&& forall|r: int|
            0 <= r < self.rows@.len() ==> (#[trigger] self.rows@[r]).args.len()
                == self.accumulators@.len()
        &&& forall|r: int|
            0 <= r < self.rows@.len() ==> (#[trigger] self.rows@[r]).pass.len()
                == self.accumulators@.len()
        &&& forall|r: int|
            0 <= r < self.rows@.len() ==> (#[trigger] self.rows@[r]).hash == hash_of(
                self.seeds.0,
                self.seeds.1,
                self.seeds.2,
                self.seeds.3,
                crate::encoder::enc_row(self.key_fields@, self.rows@[r].key),
            )
        &&& folds_ok_from(self.mode, acc_kinds(self.accumulators@), self.rows@, 0)
    }

    pub open spec fn wf(&self) -> bool {
        self.config_wf() && self.state_wf()
    }

    /// Create a grouping aggregator. Fails with invalid input exactly
    /// when a group or argument expression names a column outside the
    /// input schema, or an aggregate argument is not an integer column.
    pub fn try_new(
        mode: AggregateMode,
        input_schema: Vec<DataType>,
        group_cols: Vec<usize>,
        aggregates: Vec<AggKind>,
        agg_args: Vec<usize>,
        filters: Vec<Option<usize>>,
        batch_size: usize,
        mem_capacity: usize,
    ) -> (r: Result<Self, ExecError>)
        requires
            batch_size >= 1,
            aggregates@.len() == agg_args@.len(),
            filters@.len() == agg_args@.len(),
        ensures
            r is Ok <==> {
                &&& forall|b: int|
                    0 <= b < group_cols@.len() ==> (#[trigger] group_cols@[b])
                        < input_schema@.len()
                &&& forall|b: int|
                    0 <= b < group_cols@.len() ==> input_schema@[#[trigger] group_cols@[
                        b] as int] != DataType::Bool
                &&& forall|a: int|
                    0 <= a < agg_args@.len() ==> (#[trigger] agg_args@[a]) < input_schema@.len()
                &&& forall|a: int|
                    0 <= a < agg_args@.len() ==> input_schema@[#[trigger] agg_args@[a] as int]
                        == DataType::Int64
                &&& ((mode == AggregateMode::Partial || mode == AggregateMode::Single)
                    ==> forall|a: int|
                    0 <= a < filters@.len() ==> ((#[trigger] filters@[a]) matches Some(c) ==> c
                        < input_schema@.len() && input_schema@[c as int] == DataType::Bool))
            },
            r is Err ==> r == Result::<Self, ExecError>::Err(ExecError::InvalidInput),
            r is Ok ==> {
                &&& r->Ok_0.wf()
                &&& r->Ok_0.rows@.len() == 0
                &&& r->Ok_0.mode == mode
                &&& r->Ok_0.exec_state is ReadingInput
                &&& r->Ok_0.batch_size == batch_size
                &&& r->Ok_0.input_schema@ == input_schema@
                &&& r->Ok_0.reservation.capacity == mem_capacity
                &&& forall|a: int|
                    0 <= a < aggregates@.len() ==> (#[trigger] r->Ok_0.accumulators@[a]).kind
                        == aggregates@[a]
                &&& ((mode == AggregateMode::Partial || mode == AggregateMode::Single)
                    ==> r->Ok_0.filters@ == filters@)
            },
    {
        let ng = group_cols.len();
        let mut builders: Vec<GroupColumn> = Vec::new();
        let mut key_fields: Vec<SortField> = Vec::new();
        let mut schema: Vec<DataType> = Vec::new();
        let mut b: usize = 0;
        while b < ng
            invariant
                0 <= b <= ng,
                ng == group_cols@.len(),
                builders@.len() == b,
                key_fields@.len() == b,
                schema@.len() == b,
                forall|w: int|
                    0 <= w < b ==> (#[trigger] group_cols@[w]) < input_schema@.len(),
                forall|w: int|
                    0 <= w < b ==> input_schema@[#[trigger] group_cols@[w] as int]
                        != DataType::Bool,
                forall|w: int|
                    0 <= w < b ==> (#[trigger] key_fields@[w]) == (SortField {
                        data_type: input_schema@[group_cols@[w] as int],
                        options: SortOptions { descending: false, nulls_first: true },
                    }),
                forall|w: int|
                    0 <= w < b ==> ((#[trigger] builders@[w]) is Primitive <==> input_schema@[
                        group_cols@[w] as int] == DataType::Int64),
                forall|w: int|
                    0 <= w < b ==> ((#[trigger] builders@[w]) matches GroupColumn::Primitive(p)
                        ==> p.nullable),
                forall|w: int| 0 <= w < b ==> (#[trigger] builders@[w]).wf(),
                forall|w: int| 0 <= w < b ==> (#[trigger] builders@[w]).len_spec() == 0,
                forall|w: int|
                    0 <= w < b ==> #[trigger] schema@[w] == input_schema@[group_cols@[w] as int],
            decreases ng - b,
        {
            let col = group_cols[b];
            if col >= input_schema.len() {
                return Err(ExecError::InvalidInput);
            }
            let dt = input_schema[col];
            match dt {
                DataType::Int64 => {
                    builders.push(GroupColumn::Primitive(PrimitiveGroupValueBuilder::new(true)));
                },
                DataType::Bytes => {
                    builders.push(GroupColumn::Bytes(ByteGroupValueBuilder::new(OutputType::Utf8)));
                },
                DataType::BytesView => {
                    builders.push(
                        GroupColumn::BytesView(
                            crate::builders::ByteGroupValueViewBuilder::new(OutputType::Utf8),
                        ),
                    );
                },
                DataType::Bool => {
                    // no group builder stores booleans
                    return Err(ExecError::InvalidInput);
                },
            }
            key_fields.push(
                SortField {
                    data_type: dt,
                    options: SortOptions { descending: false, nulls_first: true },
                },
            );
            schema.push(dt);
            b += 1;
        }
        let na = agg_args.len();
        let mut accumulators: Vec<Accumulator> = Vec::new();
        let mut a: usize = 0;
        while a < na
            invariant
                0 <= a <= na,
                na == agg_args@.len(),
                na == aggregates@.len(),
                schema@.len() == ng + a,
                ng == group_cols@.len(),
                accumulators@.len() == a,
                forall|w: int| 0 <= w < a ==> (#[trigger] agg_args@[w]) < input_schema@.len(),
                forall|w: int|
                    0 <= w < a ==> input_schema@[#[trigger] agg_args@[w] as int]
                        == DataType::Int64,
                forall|w: int| 0 <= w < a ==> (#[trigger] accumulators@[w]).wf(),
                forall|w: int| 0 <= w < a ==> (#[trigger] accumulators@[w]).num_groups() == 0,
                forall|w: int|
                    0 <= w < a ==> (#[trigger] accumulators@[w]).kind == aggregates@[w],
                forall|w: int|
                    0 <= w < ng ==> #[trigger] schema@[w] == input_schema@[group_cols@[w] as int],
                forall|w: int|
                    0 <= w < a ==> #[trigger] schema@[ng + w] == DataType::Int64,
            decreases na - a,
        {
            let arg = agg_args[a];
            if arg >= input_schema.len() {
                return Err(ExecError::InvalidInput);
            }
            if input_schema[arg] != DataType::Int64 {
                return Err(ExecError::InvalidInput);
            }
            accumulators.push(Accumulator::new(aggregates[a]));
            schema.push(DataType::Int64);
            a += 1;
        }
        // filters: checked on raw input; a mode that merges pre-aggregated
        // state carries none
        let merge_mode = match mode {
            AggregateMode::Final => true,
            AggregateMode::FinalPartitioned => true,
            _ => false,
        };
        let mut checked_filters: Vec<Option<usize>> = Vec::new();
        let nf = filters.len();
        let mut fi: usize = 0;
        while fi < nf
            invariant
                0 <= fi <= nf,
                nf == filters@.len(),
                checked_filters@.len() == fi,
                merge_mode == (mode == AggregateMode::Final || mode
                    == AggregateMode::FinalPartitioned),
                forall|w: int|
                    0 <= w < fi ==> ((#[trigger] checked_filters@[w]) matches Some(c) ==> c
                        < input_schema@.len() && input_schema@[c as int] == DataType::Bool),
                merge_mode ==> forall|w: int|
                    0 <= w < fi ==> (#[trigger] checked_filters@[w]) is None,
                !merge_mode ==> checked_filters@ == filters@.take(fi as int),
                !merge_mode ==> forall|w: int|
                    0 <= w < fi ==> ((#[trigger] filters@[w]) matches Some(c) ==> c
                        < input_schema@.len() && input_schema@[c as int] == DataType::Bool),
            decreases nf - fi,
        {
            if merge_mode {
                checked_filters.push(None);
            } else {
                match &filters[fi] {
                    Some(c) => {
                        let c = *c;
                        if c >= input_schema.len() {
                            return Err(ExecError::InvalidInput);
                        }
                        if input_schema[c] != DataType::Bool {
                            return Err(ExecError::InvalidInput);
                        }
                        checked_filters.push(Some(c));
                    },
                    None => {
                        checked_filters.push(None);
                    },
                }
                proof {
                    assert(checked_filters@ =~= filters@.take(fi + 1));
                }
            }
            fi += 1;
        }
        proof {
            if !merge_mode {
                assert(filters@.take(nf as int) =~= filters@);
            }
        }
        let (k0, k1, k2, k3) = draw_seeds();
        let r = GroupedHashAggregate {
            mode,
            input_schema,
            schema,
            group_cols,
            agg_args,
            filters: checked_filters,
            builders,
            map: Vec::new(),
            accumulators,
            key_fields,
            seeds: (k0, k1, k2, k3),
            reservation: MemoryReservation::register(mem_capacity),
            batch_size,
            exec_state: ExecutionState::ReadingInput,
            rows: Ghost(Seq::empty()),
        };
        proof {
            assert(groups_of(r.rows@) =~= Seq::<(Seq<Cell>, u64)>::empty());
        }
        Ok(r)
    }
}

impl Accumulator {
    /// Absorb one pre-aggregated count for one group: the partial count is
    /// added to the running count (and the running sum, which tracks the
    /// same total for counts). Fails on a negative partial count or on
    /// overflow.
    pub fn merge_count_one(&mut self, g: usize, value: Option<i64>) -> (r: Result<(), ExecError>)
        requires
            old(self).wf(),
            g < old(self).num_groups(),
            value matches Some(v) ==> v >= 0,
        ensures
            final(self).wf(),
            final(self).kind == old(self).kind,
            final(self).num_groups() == old(self).num_groups(),
            forall|w: int|
                0 <= w < old(self).num_groups() && w != g ==> #[trigger] final(self).sums@[w]
                    == old(self).sums@[w],
            forall|w: int|
                0 <= w < old(self).num_groups() && w != g ==> #[trigger] final(self).counts@[w]
                    == old(self).counts@[w],
            r is Ok <==> (match value {
                Some(v) => old(self).sums@[g as int] + v <= i64::MAX && old(self).counts@[
                    g as int] + v <= u64::MAX,
                None => true,
            }),
            r is Err ==> *final(self) == *old(self) && r == Result::<(), ExecError>::Err(
                ExecError::Overflow,
            ),
            r is Ok ==> (match value {
                Some(v) => final(self).sums@[g as int] == old(self).sums@[g as int] + v
                    && final(self).counts@[g as int] == old(self).counts@[g as int] + v,
                None => final(self).sums@[g as int] == old(self).sums@[g as int]
                    && final(self).counts@[g as int] == old(self).counts@[g as int],
            }),
    {
        match value {
            Some(v) => {
                let s = self.sums[g];
                let c = self.counts[g];
                if s > i64::MAX - v {
                    return Err(ExecError::Overflow);
                }
                if c > u64::MAX - (v as u64) {
                    return Err(ExecError::Overflow);
                }
                self.sums[g] = s + v;
                self.counts[g] = c + (v as u64);
                Ok(())
            },
            None => Ok(()),
        }
    }
}

/// The rows a batch contributes: per row, the group-key cells, the hash
/// of their encoding under the operator's seeds, one argument cell per
/// aggregate, and per aggregate whether the row passed its filter (a
/// missing filter passes everything; a false or null filter cell
/// excludes the row).
pub open spec fn batch_agg_rows(
    group_cols: Seq<usize>,
    agg_args: Seq<usize>,
    filters: Seq<Option<usize>>,
    key_fields: Seq<SortField>,
    seeds: (u64, u64, u64, u64),
    batch: RecordBatch,
) -> Seq<AggRow> {
    Seq::new(
        batch.num_rows as nat,
        |i: int|
            AggRow {
                key: Seq::new(group_cols.len(), |b: int| batch.columns@[group_cols[b] as int].cell(i)),
                hash: hash_of(
                    seeds.0,
                    seeds.1,
                    seeds.2,
                    seeds.3,
                    crate::encoder::enc_row(
                        key_fields,
                        Seq::new(
                            group_cols.len(),
                            |b: int| batch.columns@[group_cols[b] as int].cell(i),
                        ),
                    ),
                ),
                args: Seq::new(agg_args.len(), |a: int| batch.columns@[agg_args[a] as int].cell(i)),
                pass: Seq::new(
                    filters.len(),
                    |a: int|
                        match filters[a] {
                            Option::None => true,
                            Option::Some(c) => batch.columns@[c as int].cell(i) == Cell::Bool(
                                true,
                            ),
                        },
                ),
            },
    )
}

impl GroupedHashAggregate {
    /// Whether the aggregator's configuration is unchanged.
    pub open spec fn same_config(&self, other: &Self) -> bool {
        &&& self.mode == other.mode
        &&& self.input_schema@ == other.input_schema@
        &&& self.schema@ == other.schema@
        &&& self.group_cols@ == other.group_cols@
        &&& self.agg_args@ == other.agg_args@
        &&& self.filters@ == other.filters@
        &&& self.seeds == other.seeds
        &&& self.key_fields@ == other.key_fields@
        &&& self.batch_size == other.batch_size
        &&& self.reservation.capacity == other.reservation.capacity
        &&& self.accumulators@.len() == other.accumulators@.len()
        &&& forall|a: int|
            0 <= a < self.accumulators@.len() ==> (#[trigger] self.accumulators@[a]).kind
                == other.accumulators@[a].kind
    }

    /// Whether, in a mode that merges pre-aggregated state, some counted
    /// argument cell of the batch is negative.
    fn scan_negative_merge_args(&self, batch: &RecordBatch) -> (r: bool)
        requires
            self.config_wf(),
            batch.wf(),
            batch.schema@ == self.input_schema@,
        ensures
            r == has_negative_merge_arg(
                self.mode,
                acc_kinds(self.accumulators@),
                self.agg_args@,
                *batch,
            ),
    {
        let merge_mode = match self.mode {
            AggregateMode::Final => true,
            AggregateMode::FinalPartitioned => true,
            _ => false,
        };
        if !merge_mode {
            proof {
                assert(!has_negative_merge_arg(
                    self.mode,
                    acc_kinds(self.accumulators@),
                    self.agg_args@,
                    *batch,
                ));
            }
            return false;
        }
        let ghost kinds = acc_kinds(self.accumulators@);
        let na = self.accumulators.len();
        let num_rows = batch.num_rows;
        let mut a: usize = 0;
        while a < na
            invariant
                0 <= a <= na,
                self.config_wf(),
                batch.wf(),
                batch.schema@ == self.input_schema@,
                self.mode == AggregateMode::Final || self.mode == AggregateMode::FinalPartitioned,
                kinds == acc_kinds(self.accumulators@),
                kinds.len() == na,
                na == self.accumulators@.len(),
                num_rows == batch.num_rows,
                forall|a2: int, i2: int|
                    0 <= a2 < a && 0 <= i2 < num_rows && kinds[a2] == AggKind::Count ==> !((
                    #[trigger] batch.columns@[self.agg_args@[a2] as int].cell(i2)) matches
                        Cell::Int(v) && v < 0),
            decreases na - a,
        {
            let is_count = match self.accumulators[a].kind {
                AggKind::Count => true,
                _ => false,
            };
            if is_count {
                let colx = self.agg_args[a];
                match &batch.columns[colx] {
                    Column::Int64(pc) => {
                        proof {
                            assert(batch.columns@[colx as int].matches_type_spec(
                                DataType::Int64,
                            ));
                        }
                        let mut r0: usize = 0;
                        proof {
                            assert(batch.columns@[colx as int] == Column::Int64(*pc));
                        }
                        while r0 < num_rows
                            invariant
                                0 <= r0 <= num_rows,
                                batch.wf(),
                                colx < batch.columns@.len(),
                                batch.columns@[colx as int] == Column::Int64(*pc),
                                pc.wf(),
                                pc.len_spec() == batch.num_rows,
                                num_rows == batch.num_rows,
                                colx == self.agg_args@[a as int],
                                a < na,
                                kinds == acc_kinds(self.accumulators@),
                                kinds.len() == na,
                                na == self.accumulators@.len(),
                                kinds[a as int] == AggKind::Count,
                                self.mode == AggregateMode::Final || self.mode
                                    == AggregateMode::FinalPartitioned,
                                forall|i2: int|
                                    0 <= i2 < r0 ==> !((#[trigger] batch.columns@[
                                        colx as int].cell(i2)) matches Cell::Int(v) && v < 0),
                            decreases num_rows - r0,
                        {
                            if !pc.is_null(r0) {
                                let vv = pc.value(r0);
                                if vv < 0 {
                                    proof {
                                        assert(batch.columns@[colx as int].cell(r0 as int)
                                            == Cell::Int(vv));
                                        assert((batch.columns@[self.agg_args@[
                                            a as int] as int].cell(r0 as int)) matches Cell::Int(
                                            v,
                                        ) && v < 0);
                                        assert(has_negative_merge_arg(
                                            self.mode,
                                            kinds,
                                            self.agg_args@,
                                            *batch,
                                        ));
                                    }
                                    return true;
                                }
                                proof {
                                    assert(batch.columns@[colx as int].cell(r0 as int)
                                        == Cell::Int(vv));
                                }
                            } else {
                                proof {
                                    assert(batch.columns@[colx as int].cell(r0 as int) is Null);
                                }
                            }
                            r0 += 1;
                        }
                    },
                    _ => {
                        proof {
                            assert(batch.columns@[colx as int].matches_type_spec(
                                DataType::Int64,
                            ));
                            assert(false);
                        }
                    },
                }
            }
            a += 1;
        }
        proof {
            assert(!has_negative_merge_arg(self.mode, kinds, self.agg_args@, *batch)) by {
                if has_negative_merge_arg(self.mode, kinds, self.agg_args@, *batch) {
                    let (wa, wi) = choose|wa: int, wi: int|
                        0 <= wa < kinds.len() && 0 <= wi < batch.num_rows && kinds[wa]
                            == AggKind::Count && ((#[trigger] batch.columns@[self.agg_args@[
                            wa] as int].cell(wi)) matches Cell::Int(v) && v < 0);
                    assert(false);
                }
            }
        }
        false
    }

    /// Perform grouped aggregation for one record batch: resolve each
    /// row's group index through the hash table, verified by column
    /// equality, appending first-seen keys to every group builder, and
    /// absorb each row into every accumulator. Fails with invalid input
    /// exactly when the batch schema differs from the declared input
    /// schema; fails with an overflow error when an accumulator leaves
    /// the 64-bit range; fails with resource exhaustion when the grown
    /// state no longer fits the memory reservation. Any failure ends the
    /// stream.
    #[verifier::rlimit(80)]
    pub fn group_aggregate_batch(&mut self, batch: &RecordBatch) -> (r: Result<(), ExecError>)
        requires
            old(self).wf(),
            old(self).exec_state is ReadingInput,
            batch.wf(),
        ensures
            final(self).same_config(old(self)),
            r is Err ==> final(self).exec_state is Done,
            r is Ok ==> final(self).wf() && final(self).exec_state is ReadingInput,
            // invalid input, exactly: a foreign schema, or a negative
            // pre-aggregated count to merge; the absorbed state is untouched
            (r == Result::<(), ExecError>::Err(ExecError::InvalidInput)) <==> (batch.schema@
                != old(self).input_schema@ || has_negative_merge_arg(
                old(self).mode,
                acc_kinds(old(self).accumulators@),
                old(self).agg_args@,
                *batch,
            )),
            r == Result::<(), ExecError>::Err(ExecError::InvalidInput) ==> final(self).rows@
                == old(self).rows@ && final(self).builders@ == old(self).builders@
                && final(self).map@ == old(self).map@ && final(self).accumulators@ == old(
                self,
            ).accumulators@,
            // on acceptable input the whole outcome is pinned by the rows
            // the batch contributes
            (batch.schema@ == old(self).input_schema@ && !has_negative_merge_arg(
                old(self).mode,
                acc_kinds(old(self).accumulators@),
                old(self).agg_args@,
                *batch,
            )) ==> ({
                let rows_all = old(self).rows@ + batch_agg_rows(
                    old(self).group_cols@,
                    old(self).agg_args@,
                    old(self).filters@,
                    old(self).key_fields@,
                    old(self).seeds,
                    *batch,
                );
                let kinds = acc_kinds(old(self).accumulators@);
                let from = old(self).rows@.len() as int;
                // an accumulator leaves its 64-bit bounds, exactly: overflow
                &&& ((r == Result::<(), ExecError>::Err(ExecError::Overflow)) <==> !folds_ok_from(
                    old(self).mode,
                    kinds,
                    rows_all,
                    from,
                ))
                // within bounds, the state is fully absorbed and the call
                // succeeds exactly when the footprint fits the reservation
                &&& (folds_ok_from(old(self).mode, kinds, rows_all, from) ==> {
                    &&& final(self).rows@ == rows_all
                    &&& (r is Ok <==> agg_footprint(
                        final(self).builders@,
                        final(self).accumulators@,
                        final(self).map@.len(),
                    ) <= old(self).reservation.capacity)
                    &&& (r is Err ==> r == Result::<(), ExecError>::Err(
                        ExecError::ResourcesExhausted,
                    ))
                    &&& (r is Ok ==> final(self).reservation.size as nat == agg_footprint(
                        final(self).builders@,
                        final(self).accumulators@,
                        final(self).map@.len(),
                    ))
                })
            }),
    {
        if !crate::topk::schemas_equal(&batch.schema, &self.input_schema) {
            self.exec_state = ExecutionState::Done;
            return Err(ExecError::InvalidInput);
        }
        if self.scan_negative_merge_args(batch) {
            self.exec_state = ExecutionState::Done;
            return Err(ExecError::InvalidInput);
        }
        let ghost kinds0 = acc_kinds(self.accumulators@);
        let num_rows = batch.num_rows;
        // project the group-key columns and encode them to hashable bytes
        let ng = self.group_cols.len();
        let mut gcols: Vec<Column> = Vec::new();
        let mut b: usize = 0;
        while b < ng
            invariant
                0 <= b <= ng,
                self.wf(),
                batch.wf(),
                batch.schema@ == self.input_schema@,
                num_rows == batch.num_rows,
                ng == self.group_cols@.len(),
                gcols@.len() == b,
                forall|w: int| 0 <= w < b ==> (#[trigger] gcols@[w]).wf(),
                forall|w: int| 0 <= w < b ==> (#[trigger] gcols@[w]).len_spec() == num_rows,
                forall|w: int, i: int|
                    0 <= w < b && 0 <= i < num_rows ==> (#[trigger] gcols@[w].cell(i))
                        == batch.columns@[self.group_cols@[w] as int].cell(i),
                forall|w: int|
                    0 <= w < b ==> (#[trigger] gcols@[w]).matches_type_spec(
                        self.key_fields@[w].data_type,
                    ),
                forall|w: int|
                    0 <= w < b ==> (#[trigger] gcols@[w]).matches_type_spec(
                        self.input_schema@[self.group_cols@[w] as int],
                    ),
            decreases ng - b,
        {
            let col = self.group_cols[b];
            gcols.push(batch.columns[col].duplicate());
            b += 1;
        }
        let keys = match crate::encoder::encode_rows(&gcols, &self.key_fields, num_rows) {
            Ok(keys) => keys,
            Err(_) => {
                proof {
                    assert(false);
                }
                self.exec_state = ExecutionState::Done;
                return Err(ExecError::Internal);
            },
        };
        let ghost new_rows = batch_agg_rows(
            self.group_cols@,
            self.agg_args@,
            self.filters@,
            self.key_fields@,
            self.seeds,
            *batch,
        );
        proof {
            // the encoded bytes of each row's key are exactly what the
            // contributed rows are hashed over
            assert forall|w: int| 0 <= w < num_rows implies (#[trigger] keys@[w])@
                == crate::encoder::enc_row(self.key_fields@, new_rows[w].key) by {
                assert(crate::encoder::row_cells(gcols@, w) =~= new_rows[w].key);
            }
        }
        let (k0, k1, k2, k3) = self.seeds;
        let mut hashes: Vec<u64> = Vec::new();
        let mut hi: usize = 0;
        while hi < num_rows
            invariant
                0 <= hi <= num_rows,
                keys@.len() == num_rows,
                hashes@.len() == hi,
                (k0, k1, k2, k3) == self.seeds,
                new_rows == batch_agg_rows(
                    self.group_cols@,
                    self.agg_args@,
                    self.filters@,
                    self.key_fields@,
                    self.seeds,
                    *batch,
                ),
                num_rows == batch.num_rows,
                new_rows.len() == num_rows,
                forall|w: int|
                    0 <= w < num_rows ==> (#[trigger] keys@[w])@ == crate::encoder::enc_row(
                        self.key_fields@,
                        new_rows[w].key,
                    ),
                forall|w: int| 0 <= w < hi ==> #[trigger] hashes@[w] == new_rows[w].hash,
            decreases num_rows - hi,
        {
            let ghost oldh = hashes@;
            let h = hash_with_seeds(k0, k1, k2, k3, &keys[hi]);
            hashes.push(h);
            hi += 1;
            proof {
                assert forall|w: int| 0 <= w < hi implies #[trigger] hashes@[w] == new_rows[
                    w].hash by {
                    if w < hi - 1 {
                        assert(hashes@[w] == oldh[w]);
                    } else {
                        assert(hashes@[w] == hash_of(k0, k1, k2, k3, keys@[w]@));
                        assert(new_rows[w].hash == hash_of(
                            self.seeds.0,
                            self.seeds.1,
                            self.seeds.2,
                            self.seeds.3,
                            crate::encoder::enc_row(self.key_fields@, new_rows[w].key),
                        ));
                    }
                }
            }
        }
        let ghost old_rows = self.rows@;
        // resolve and absorb the rows one by one
        let mut i: usize = 0;
        while i < num_rows
            invariant
                0 <= i <= num_rows,
                old(self).wf(),
                self.wf(),
                self.same_config(old(self)),
                self.reservation == old(self).reservation,
                self.exec_state is ReadingInput,
                batch.wf(),
                batch.schema@ == self.input_schema@,
                num_rows == batch.num_rows,
                ng == self.group_cols@.len(),
                hashes@.len() == num_rows,
                forall|w: int| 0 <= w < num_rows ==> #[trigger] hashes@[w] == new_rows[w].hash,
                gcols@.len() == ng,
                forall|w: int| 0 <= w < ng ==> (#[trigger] gcols@[w]).wf(),
                forall|w: int| 0 <= w < ng ==> (#[trigger] gcols@[w]).len_spec() == num_rows,
                forall|w: int, i2: int|
                    0 <= w < ng && 0 <= i2 < num_rows ==> (#[trigger] gcols@[w].cell(i2))
                        == batch.columns@[self.group_cols@[w] as int].cell(i2),
                forall|w: int|
                    0 <= w < ng ==> (#[trigger] gcols@[w]).matches_type_spec(
                        self.input_schema@[self.group_cols@[w] as int],
                    ),
                new_rows == batch_agg_rows(
                    self.group_cols@,
                    self.agg_args@,
                    self.filters@,
                    self.key_fields@,
                    self.seeds,
                    *batch,
                ),
                new_rows.len() == num_rows,
                kinds0 == acc_kinds(self.accumulators@),
                !has_negative_merge_arg(self.mode, kinds0, self.agg_args@, *batch),
                self.rows@ == old_rows + new_rows.take(i as int),
                old_rows == old(self).rows@,
            decreases num_rows - i,
        {
            let ghost pre_rows = self.rows@;
            let ghost nr = new_rows[i as int];
            let h = hashes[i];
            proof {
                assert(nr.hash == h);
                assert(nr.key =~= Seq::new(
                    self.group_cols@.len(),
                    |w: int| gcols@[w].cell(i as int),
                ));
                assert(nr.key.len() == ng);
                assert(nr.args.len() == self.accumulators@.len());
                assert(nr.pass.len() == self.accumulators@.len());
            }
            // probe the table: candidates share the hash; identity is
            // verified by the group builders' column equality
            let ghost groups = groups_of(self.rows@);
            proof {
                lemma_groups_key_len(self.rows@, self.group_cols@.len());
            }
            let mlen = self.map.len();
            let mut j: usize = 0;
            let mut found = false;
            let mut g: usize = 0;
            while j < mlen && !found
                invariant
                    0 <= j <= mlen,
                    self.wf(),
                    mlen == self.map@.len(),
                    groups == groups_of(self.rows@),
                    ng == self.group_cols@.len(),
                    gcols@.len() == ng,
                    i < num_rows,
                    forall|w: int| 0 <= w < ng ==> (#[trigger] gcols@[w]).wf(),
                    forall|w: int| 0 <= w < ng ==> (#[trigger] gcols@[w]).len_spec() == num_rows,
                    nr.key.len() == ng,
                    forall|w: int|
                        0 <= w < ng ==> #[trigger] nr.key[w] == gcols@[w].cell(i as int),
                    forall|g2: int| 0 <= g2 < groups.len() ==> (#[trigger] groups[g2]).0.len() == ng,
                    forall|w2: int|
                        0 <= w2 < ng ==> (#[trigger] gcols@[w2]).matches_type_spec(
                            self.input_schema@[self.group_cols@[w2] as int],
                        ),
                    !found ==> forall|q: int|
                        0 <= q < j ==> !((#[trigger] groups[q]).1 == h && keys_match(
                            groups[q].0,
                            nr.key,
                        )),
                    found ==> g < groups.len() && groups[g as int].1 == h && keys_match(
                        groups[g as int].0,
                        nr.key,
                    ) && (forall|q: int|
                        0 <= q < g ==> !((#[trigger] groups[q]).1 == h && keys_match(
                            groups[q].0,
                            nr.key,
                        ))),
                decreases mlen - j + (if found { 0int } else { 1int }),
            {
                if self.map[j].0 == h {
                    // candidate: verify the key against every builder
                    let mut same = true;
                    let mut w: usize = 0;
                    while w < ng && same
                        invariant
                            0 <= w <= ng,
                            self.wf(),
                            j < self.map@.len(),
                            self.map@[j as int].1 == j,
                            groups == groups_of(self.rows@),
                            j < groups.len(),
                            ng == self.group_cols@.len(),
                            gcols@.len() == ng,
                            i < num_rows,
                            forall|w2: int| 0 <= w2 < ng ==> (#[trigger] gcols@[w2]).wf(),
                            forall|w2: int|
                                0 <= w2 < ng ==> (#[trigger] gcols@[w2]).len_spec() == num_rows,
                            nr.key.len() == ng,
                            forall|g2: int|
                                0 <= g2 < groups.len() ==> (#[trigger] groups[g2]).0.len() == ng,
                            forall|w2: int|
                                0 <= w2 < ng ==> (#[trigger] gcols@[w2]).matches_type_spec(
                                    self.input_schema@[self.group_cols@[w2] as int],
                                ),
                            forall|w2: int|
                                0 <= w2 < ng ==> #[trigger] nr.key[w2] == gcols@[w2].cell(
                                    i as int,
                                ),
                            same ==> forall|w2: int|
                                0 <= w2 < w ==> cell_eq(
                                    (#[trigger] groups[j as int].0[w2]),
                                    nr.key[w2],
                                ),
                            !same ==> !keys_match(groups[j as int].0, nr.key),
                        decreases ng - w + (if same { 1int } else { 0int }),
                    {
                        proof {
                            assert(self.builders@[w as int].cell(j as int) == groups[j as int].0[
                                w as int]);
                            assert(self.builders@[w as int].accepts(&gcols@[w as int])) by {
                                assert(gcols@[w as int].matches_type_spec(
                                    self.input_schema@[self.group_cols@[w as int] as int],
                                ));
                                if self.builders@[w as int] is Primitive {
                                    assert(self.input_schema@[self.group_cols@[w as int] as int]
                                        == DataType::Int64);
                                    assert(gcols@[w as int] is Int64);
                                } else {
                                    assert(!(self.input_schema@[self.group_cols@[
                                        w as int] as int] == DataType::Int64));
                                    assert(self.input_schema@[self.group_cols@[w as int] as int]
                                        != DataType::Bool);
                                    assert(gcols@[w as int] is Bytes);
                                }
                            }
                        }
                        let eq = self.builders[w].equal_to(j, &gcols[w], i);
                        if eq {
                            w += 1;
                        } else {
                            proof {
                                assert(!cell_eq(groups[j as int].0[w as int], nr.key[w as int]));
                                assert(groups[j as int].0.len() == ng) by {
                                    assert(self.builders@[0int].cell(j as int) == groups[
                                        j as int].0[0int]);
                                }
                            }
                            same = false;
                        }
                    }
                    if same {
                        proof {
                            assert(groups[j as int].0.len() == ng);
                            assert(keys_match(groups[j as int].0, nr.key));
                        }
                        found = true;
                        g = j;
                    } else {
                        j += 1;
                    }
                } else {
                    proof {
                        assert(groups[j as int].1 != h);
                    }
                    j += 1;
                }
            }
            proof {
                // the scan outcome matches the specification's resolution
                if found {
                    assert(has_group(groups, nr.key, nr.hash));
                    lemma_resolve_first(groups, nr.key, nr.hash);
                    assert(resolve_group(groups, nr.key, nr.hash) == g as int);
                } else {
                    assert(!has_group(groups, nr.key, nr.hash)) by {
                        if has_group(groups, nr.key, nr.hash) {
                            let q = choose|q: int|
                                0 <= q < groups.len() && (#[trigger] groups[q]).1 == nr.hash
                                    && keys_match(groups[q].0, nr.key);
                            assert(!((groups[q]).1 == h && keys_match(groups[q].0, nr.key)));
                        }
                    }
                }
            }
            let group_idx: usize;
            if found {
                group_idx = g;
            } else {
                // first observation of this key: append it to every
                // builder, give it the next dense index, and extend the
                // accumulators
                group_idx = self.map.len();
                let ghost pre_builders = self.builders@;
                let ghost pre_map = self.map@;
                let ghost pre_accs = self.accumulators@;
                let mut w: usize = 0;
                while w < ng
                    invariant
                        0 <= w <= ng,
                        old(self).wf(),
                        self.same_config(old(self)),
                        self.reservation == old(self).reservation,
                        self.exec_state is ReadingInput,
                        self.map@ == pre_map,
                        self.accumulators@ == pre_accs,
                        self.rows@ == pre_rows,
                        ng == self.group_cols@.len(),
                        self.builders@.len() == ng,
                        gcols@.len() == ng,
                        i < num_rows,
                        forall|w2: int| 0 <= w2 < ng ==> (#[trigger] gcols@[w2]).wf(),
                        forall|w2: int|
                            0 <= w2 < ng ==> (#[trigger] gcols@[w2]).len_spec() == num_rows,
                        pre_builders.len() == ng,
                        forall|w2: int|
                            0 <= w2 < ng ==> (#[trigger] gcols@[w2]).matches_type_spec(
                                self.input_schema@[self.group_cols@[w2] as int],
                            ),
                        forall|w2: int|
                            w <= w2 < ng ==> #[trigger] self.builders@[w2] == pre_builders[w2],
                        forall|w2: int| 0 <= w2 < ng ==> (#[trigger] self.builders@[w2]).wf(),
                        forall|w2: int|
                            0 <= w2 < w ==> (#[trigger] self.builders@[w2]).len_spec()
                                == pre_builders[w2].len_spec() + 1,
                        forall|w2: int, g2: int|
                            0 <= w2 < w && 0 <= g2 < pre_builders[w2].len_spec() ==> (
                            #[trigger] self.builders@[w2].cell(g2)) == pre_builders[w2].cell(g2),
                        forall|w2: int|
                            0 <= w2 < w ==> (#[trigger] self.builders@[w2]).cell(
                                pre_builders[w2].len_spec() as int,
                            ) == gcols@[w2].cell(i as int),
                        forall|w2: int|
                            0 <= w2 < ng ==> ((#[trigger] self.builders@[w2]) is Primitive
                                <==> pre_builders[w2] is Primitive),
                        forall|w2: int|
                            0 <= w2 < ng ==> ((#[trigger] self.builders@[w2]) is Primitive
                                <==> self.input_schema@[self.group_cols@[w2] as int]
                                == DataType::Int64),
                        forall|w2: int|
                            0 <= w2 < ng ==> ((#[trigger] self.builders@[w2]) matches
                                GroupColumn::Primitive(p) ==> p.nullable),
                    decreases ng - w,
                {
                    proof {
                        assert(self.builders@[w as int].accepts(&gcols@[w as int])) by {
                            assert(gcols@[w as int].matches_type_spec(
                                self.input_schema@[self.group_cols@[w as int] as int],
                            ));
                            if self.builders@[w as int] is Primitive {
                                assert(self.input_schema@[self.group_cols@[w as int] as int]
                                    == DataType::Int64);
                                assert(gcols@[w as int] is Int64);
                            } else {
                                assert(!(self.input_schema@[self.group_cols@[w as int] as int]
                                    == DataType::Int64));
                                assert(self.input_schema@[self.group_cols@[w as int] as int]
                                    != DataType::Bool);
                                assert(gcols@[w as int] is Bytes);
                            }
                        }
                    }
                    self.builders[w].append_val(&gcols[w], i);
                    w += 1;
                }
                self.map.push((h, group_idx));
                let ghost post_builders = self.builders@;
                let ghost post_map = self.map@;
                let na = self.accumulators.len();
                let mut a: usize = 0;
                while a < na
                    invariant
                        0 <= a <= na,
                        self.same_config(old(self)),
                        self.reservation == old(self).reservation,
                        self.exec_state is ReadingInput,
                        self.builders@ == post_builders,
                        self.map@ == post_map,
                        self.rows@ == pre_rows,
                        na == self.accumulators@.len(),
                        group_idx == self.map@.len() - 1,
                        forall|a2: int|
                            0 <= a2 < na ==> (#[trigger] self.accumulators@[a2]).wf(),
                        forall|a2: int|
                            0 <= a2 < a ==> (#[trigger] self.accumulators@[a2]).num_groups()
                                == group_idx + 1,
                        forall|a2: int|
                            a <= a2 < na ==> (#[trigger] self.accumulators@[a2]).num_groups()
                                == group_idx,
                        forall|a2: int, g2: int|
                            0 <= a2 < na && 0 <= g2 < group_idx
                                ==> (#[trigger] self.accumulators@[a2].sums@[g2]) == agg_sum(
                                self.rows@,
                                a2,
                                g2,
                            ),
                        forall|a2: int, g2: int|
                            0 <= a2 < na && 0 <= g2 < group_idx
                                ==> (#[trigger] self.accumulators@[a2].counts@[g2]) == count_spec(
                                self.mode,
                                self.accumulators@[a2].kind,
                                self.rows@,
                                a2,
                                g2,
                            ),
                        forall|a2: int|
                            0 <= a2 < a ==> (#[trigger] self.accumulators@[a2]).sums@[
                                group_idx as int] == 0,
                        forall|a2: int|
                            0 <= a2 < a ==> (#[trigger] self.accumulators@[a2]).counts@[
                                group_idx as int] == 0,
                        forall|a2: int|
                            0 <= a2 < na ==> (#[trigger] self.accumulators@[a2]).kind == old(
                                self,
                            ).accumulators@[a2].kind,
                    decreases na - a,
                {
                    let glen = self.map.len();
                    proof {
                        assert(glen == group_idx + 1);
                    }
                    self.accumulators[a].ensure_groups(glen);
                    a += 1;
                }
            }
            proof {
                self.rows@ = pre_rows.push(nr);
                assert(new_rows.take(i + 1) =~= new_rows.take(i as int).push(nr));
                assert(self.rows@ =~= old_rows + new_rows.take(i + 1));
                // the new groups are the old groups, extended on a miss
                assert(self.rows@.drop_last() =~= pre_rows);
                assert(self.rows@.last() == nr);
                if found {
                    assert(groups_of(self.rows@) == groups);
                } else {
                    assert(groups_of(self.rows@) == groups.push((nr.key, nr.hash)));
                }
                assert(row_group(self.rows@, self.rows@.len() - 1) == group_idx as int) by {
                    assert(self.rows@.take(self.rows@.len() as int) =~= self.rows@);
                    if found {
                        lemma_resolve_first(groups_of(self.rows@), nr.key, nr.hash);
                    } else {
                        assert(!has_group(groups_of(self.rows@).drop_last(), nr.key, nr.hash))
                            by {
                            assert(groups_of(self.rows@).drop_last() =~= groups);
                        }
                    }
                }
            }
            proof {
                // the accumulators hold the fold of the rows before this one
                let groups2 = groups_of(self.rows@);
                assert forall|a2: int, g2: int|
                    0 <= a2 < self.accumulators@.len() && 0 <= g2 < groups2.len() implies (
                #[trigger] self.accumulators@[a2].sums@[g2]) == agg_sum(
                    self.rows@.drop_last(),
                    a2,
                    g2,
                ) by {
                    if g2 >= groups_of(pre_rows).len() {
                        lemma_agg_zero_beyond_groups(pre_rows, a2, g2);
                    }
                }
                assert forall|a2: int, g2: int|
                    0 <= a2 < self.accumulators@.len() && 0 <= g2 < groups2.len() implies (
                #[trigger] self.accumulators@[a2].counts@[g2]) == count_spec(
                    self.mode,
                    self.accumulators@[a2].kind,
                    self.rows@.drop_last(),
                    a2,
                    g2,
                ) by {
                    if g2 >= groups_of(pre_rows).len() {
                        lemma_agg_zero_beyond_groups(pre_rows, a2, g2);
                    }
                }
                assert(self.config_wf()) by {
                    assert(old(self).config_wf());
                    assert(self.builders@.len() == self.group_cols@.len());
                    assert forall|b2: int|
                        0 <= b2 < self.builders@.len() implies ((#[trigger] self.builders@[
                    b2]) is Primitive <==> self.input_schema@[self.group_cols@[b2] as int]
                        == DataType::Int64) by {}
                    assert forall|b2: int|
                        0 <= b2 < self.builders@.len() implies ((#[trigger] self.builders@[
                    b2]) matches GroupColumn::Primitive(p) ==> p.nullable) by {}
                }
            }
            // absorb the row's argument cells into every accumulator whose
            // filter the row passes
            let ghost cur_rows = self.rows@;
            let ghost cur_builders = self.builders@;
            let ghost cur_map = self.map@;
            let na = self.accumulators.len();
            let mut a: usize = 0;
            while a < na
                invariant
                    0 <= a <= na,
                    self.same_config(old(self)),
                    self.reservation == old(self).reservation,
                    self.exec_state is ReadingInput,
                    self.rows@ == cur_rows,
                    cur_rows == old_rows + new_rows.take(i + 1),
                    old_rows == old(self).rows@,
                    new_rows.len() == num_rows,
                    new_rows == batch_agg_rows(
                        self.group_cols@,
                        self.agg_args@,
                        self.filters@,
                        self.key_fields@,
                        self.seeds,
                        *batch,
                    ),
                    self.builders@ == cur_builders,
                    self.map@ == cur_map,
                    na == self.accumulators@.len(),
                    na == self.agg_args@.len(),
                    self.config_wf(),
                    batch.wf(),
                    batch.schema@ == self.input_schema@,
                    num_rows == batch.num_rows,
                    i < num_rows,
                    group_idx < groups_of(self.rows@).len(),
                    self.rows@.len() >= 1,
                    self.rows@.last() == nr,
                    nr.args.len() == na,
                    nr.pass.len() == na,
                    kinds0 == acc_kinds(self.accumulators@),
                    !has_negative_merge_arg(self.mode, kinds0, self.agg_args@, *batch),
                    forall|a2: int|
                        0 <= a2 < na ==> #[trigger] nr.args[a2] == batch.columns@[self.agg_args@[
                            a2] as int].cell(i as int),
                    forall|a2: int|
                        0 <= a2 < na ==> #[trigger] nr.pass[a2] == (match self.filters@[a2] {
                            Option::None => true,
                            Option::Some(c) => batch.columns@[c as int].cell(i as int)
                                == Cell::Bool(true),
                        }),
                    forall|a2: int|
                        0 <= a2 < a ==> #[trigger] row_acc_ok(
                            self.mode,
                            self.accumulators@[a2].kind,
                            self.rows@,
                            self.rows@.len() - 1,
                            a2,
                        ),
                    row_group(self.rows@, self.rows@.len() - 1) == group_idx as int,
                    forall|a2: int| 0 <= a2 < na ==> (#[trigger] self.accumulators@[a2]).wf(),
                    forall|a2: int|
                        0 <= a2 < na ==> (#[trigger] self.accumulators@[a2]).num_groups()
                            == groups_of(self.rows@).len(),
                    forall|a2: int, g2: int|
                        a <= a2 < na && 0 <= g2 < groups_of(self.rows@).len()
                            ==> (#[trigger] self.accumulators@[a2].sums@[g2]) == agg_sum(
                            self.rows@.drop_last(),
                            a2,
                            g2,
                        ),
                    forall|a2: int, g2: int|
                        a <= a2 < na && 0 <= g2 < groups_of(self.rows@).len()
                            ==> (#[trigger] self.accumulators@[a2].counts@[g2]) == count_spec(
                            self.mode,
                            self.accumulators@[a2].kind,
                            self.rows@.drop_last(),
                            a2,
                            g2,
                        ),
                    forall|a2: int, g2: int|
                        0 <= a2 < a && 0 <= g2 < groups_of(self.rows@).len()
                            ==> (#[trigger] self.accumulators@[a2].sums@[g2]) == agg_sum(
                            self.rows@,
                            a2,
                            g2,
                        ),
                    forall|a2: int, g2: int|
                        0 <= a2 < a && 0 <= g2 < groups_of(self.rows@).len()
                            ==> (#[trigger] self.accumulators@[a2].counts@[g2]) == count_spec(
                            self.mode,
                            self.accumulators@[a2].kind,
                            self.rows@,
                            a2,
                            g2,
                        ),
                    forall|a2: int|
                        0 <= a2 < na ==> (#[trigger] self.accumulators@[a2]).kind == old(
                            self,
                        ).accumulators@[a2].kind,
                decreases na - a,
            {
                // does the row pass this aggregate's filter?
                let pass: bool = match &self.filters[a] {
                    Option::None => true,
                    Option::Some(c) => {
                        let c = *c;
                        proof {
                            assert(batch.columns@[c as int].matches_type_spec(DataType::Bool));
                        }
                        match &batch.columns[c] {
                            Column::Bool(bc) => {
                                if bc.is_null(i) {
                                    false
                                } else {
                                    bc.value(i)
                                }
                            },
                            _ => {
                                proof {
                                    assert(false);
                                }
                                false
                            },
                        }
                    },
                };
                proof {
                    assert(pass == nr.pass[a as int]);
                }
                if pass {
                    let arg_col = self.agg_args[a];
                    let value: Option<i64> = match &batch.columns[arg_col] {
                        Column::Int64(pc) => {
                            proof {
                                assert(batch.columns@[arg_col as int].matches_type_spec(
                                    DataType::Int64,
                                ));
                            }
                            if pc.is_null(i) {
                                None
                            } else {
                                Some(pc.value(i))
                            }
                        },
                        _ => {
                            proof {
                                assert(batch.columns@[arg_col as int].matches_type_spec(
                                    DataType::Int64,
                                ));
                                assert(false);
                            }
                            None
                        },
                    };
                    proof {
                        assert((match value {
                            Some(v) => Cell::Int(v),
                            None => Cell::Null,
                        }) == nr.args[a as int]);
                    }
                    let kind = self.accumulators[a].kind;
                    let use_merge_count = match (kind, self.mode) {
                        (AggKind::Count, AggregateMode::Final) => true,
                        (AggKind::Count, AggregateMode::FinalPartitioned) => true,
                        _ => false,
                    };
                    proof {
                        // a merged count is never negative: that input was
                        // rejected up front
                        if use_merge_count {
                            match value {
                                Some(v) => {
                                    if v < 0 {
                                        assert(kinds0[a as int] == AggKind::Count);
                                        assert(batch.columns@[self.agg_args@[
                                            a as int] as int].cell(i as int) matches Cell::Int(
                                            v2,
                                        ) && v2 < 0);
                                        assert(has_negative_merge_arg(
                                            self.mode,
                                            kinds0,
                                            self.agg_args@,
                                            *batch,
                                        ));
                                        assert(false);
                                    }
                                },
                                None => {},
                            }
                        }
                        assert(self.rows@.drop_last() =~= self.rows@.take(
                            self.rows@.len() - 1,
                        ));
                    }
                    let res = if use_merge_count {
                        self.accumulators[a].merge_count_one(group_idx, value)
                    } else {
                        self.accumulators[a].update_one(group_idx, value)
                    };
                    match res {
                        Ok(()) => {},
                        Err(e) => {
                            self.exec_state = ExecutionState::Done;
                            proof {
                                // the failing bound falsifies this row's check
                                assert(!row_acc_ok(
                                    self.mode,
                                    self.accumulators@[a as int].kind,
                                    self.rows@,
                                    self.rows@.len() - 1,
                                    a as int,
                                ));
                                assert(kinds0[a as int] == self.accumulators@[a as int].kind);
                                assert(!row_fold_ok(
                                    self.mode,
                                    kinds0,
                                    self.rows@,
                                    self.rows@.len() - 1,
                                ));
                                let rows_all = old_rows + new_rows;
                                assert(self.rows@.len() <= rows_all.len());
                                assert forall|q: int|
                                    0 <= q < self.rows@.len() implies #[trigger] rows_all[q]
                                        == self.rows@[q] by {
                                    if q < old_rows.len() {
                                    } else {
                                        assert(self.rows@[q] == new_rows.take(i + 1)[q
                                            - old_rows.len()]);
                                    }
                                }
                                lemma_row_fold_ok_prefix(
                                    self.mode,
                                    kinds0,
                                    self.rows@,
                                    rows_all,
                                    self.rows@.len() - 1,
                                );
                                assert(self.rows@.len() - 1 >= old_rows.len());
                                assert(!folds_ok_from(
                                    self.mode,
                                    kinds0,
                                    rows_all,
                                    old_rows.len() as int,
                                ));
                                // restate over the entry-state terms
                                assert(acc_kinds(self.accumulators@) =~= acc_kinds(
                                    old(self).accumulators@,
                                ));
                                assert(kinds0 == acc_kinds(old(self).accumulators@));
                                assert(rows_all == old(self).rows@ + batch_agg_rows(
                                    old(self).group_cols@,
                                    old(self).agg_args@,
                                    old(self).filters@,
                                    old(self).key_fields@,
                                    old(self).seeds,
                                    *batch,
                                ));
                                assert(!folds_ok_from(
                                    old(self).mode,
                                    acc_kinds(old(self).accumulators@),
                                    rows_all,
                                    old(self).rows@.len() as int,
                                ));
                            }
                            return Err(e);
                        },
                    }
                    proof {
                        assert(row_acc_ok(
                            self.mode,
                            self.accumulators@[a as int].kind,
                            self.rows@,
                            self.rows@.len() - 1,
                            a as int,
                        ));
                        assert(agg_sum(self.rows@, a as int, group_idx as int) == agg_sum(
                            self.rows@.drop_last(),
                            a as int,
                            group_idx as int,
                        ) + (match nr.args[a as int] {
                            Cell::Int(v) => v as int,
                            _ => 0,
                        }));
                        assert forall|g2: int|
                            0 <= g2 < groups_of(self.rows@).len() && g2
                                != group_idx implies agg_sum(self.rows@, a as int, g2) == agg_sum(
                            self.rows@.drop_last(),
                            a as int,
                            g2,
                        ) && agg_count(self.rows@, a as int, g2) == agg_count(
                            self.rows@.drop_last(),
                            a as int,
                            g2,
                        ) by {}
                    }
                } else {
                    proof {
                        // a filtered-out row leaves this accumulator alone
                        assert(row_acc_ok(
                            self.mode,
                            self.accumulators@[a as int].kind,
                            self.rows@,
                            self.rows@.len() - 1,
                            a as int,
                        ));
                        assert forall|g2: int|
                            0 <= g2 < groups_of(self.rows@).len() implies agg_sum(
                            self.rows@,
                            a as int,
                            g2,
                        ) == agg_sum(self.rows@.drop_last(), a as int, g2) && agg_count(
                            self.rows@,
                            a as int,
                            g2,
                        ) == agg_count(self.rows@.drop_last(), a as int, g2) by {}
                    }
                }
                a += 1;
            }
            proof {
                // every accumulator stayed within bounds on this row, and the
                // earlier rows' checks still hold under the extended history
                assert(row_fold_ok(self.mode, kinds0, self.rows@, self.rows@.len() - 1)) by {
                    assert forall|a3: int|
                        0 <= a3 < kinds0.len() implies row_acc_ok(
                        self.mode,
                        kinds0[a3],
                        self.rows@,
                        self.rows@.len() - 1,
                        a3,
                    ) by {
                        assert(kinds0[a3] == self.accumulators@[a3].kind);
                    }
                }
                assert(folds_ok_from(self.mode, kinds0, self.rows@, 0)) by {
                    assert forall|r2: int|
                        0 <= r2 < self.rows@.len() implies row_fold_ok(
                        self.mode,
                        kinds0,
                        self.rows@,
                        r2,
                    ) by {
                        if r2 < self.rows@.len() - 1 {
                            assert(row_fold_ok(self.mode, kinds0, pre_rows, r2));
                            lemma_row_fold_ok_prefix(self.mode, kinds0, pre_rows, self.rows@, r2);
                        }
                    }
                }
            }
            i += 1;
        }
        proof {
            assert(new_rows.take(num_rows as int) =~= new_rows);
        }
        proof {
            assert(self.rows@ == old_rows + new_rows);
            assert(folds_ok_from(self.mode, kinds0, old_rows + new_rows, old_rows.len() as int));
        }
        // hold the grown state against the memory reservation
        let ghost fin_builders = self.builders@;
        let ghost fin_accs = self.accumulators@;
        let ghost fin_maplen = self.map@.len();
        let mut size: usize = 0;
        let nb = self.builders.len();
        let mut w: usize = 0;
        while w < nb
            invariant
                0 <= w <= nb,
                self.builders@ == fin_builders,
                self.accumulators@ == fin_accs,
                nb == self.builders@.len(),
                forall|w2: int| 0 <= w2 < nb ==> (#[trigger] self.builders@[w2]).wf(),
                builders_size_from(fin_builders, size as nat, w as int) == builders_size_from(
                    fin_builders,
                    0,
                    0,
                ),
            decreases nb - w,
        {
            size = sat_add(size, self.builders[w].size());
            w += 1;
        }
        let na2 = self.accumulators.len();
        let mut a2: usize = 0;
        while a2 < na2
            invariant
                0 <= a2 <= na2,
                self.accumulators@ == fin_accs,
                na2 == self.accumulators@.len(),
                accs_size_from(fin_accs, size as nat, a2 as int) == accs_size_from(
                    fin_accs,
                    builders_size_from(fin_builders, 0, 0),
                    0,
                ),
            decreases na2 - a2,
        {
            size = sat_add(size, self.accumulators[a2].size());
            a2 += 1;
        }
        size = sat_add(size, sat_add(self.map.len(), self.map.len()));
        proof {
            assert(size as nat == agg_footprint(fin_builders, fin_accs, fin_maplen));
        }
        match self.reservation.try_resize(size) {
            Ok(()) => Ok(()),
            Err(e) => {
                self.exec_state = ExecutionState::Done;
                Err(e)
            },
        }
    }
}

/// Relies on core::mem::replace: moves `src` into the referenced place
/// and returns the previous value.
pub assume_specification<T>[ core::mem::replace ](dest: &mut T, src: T) -> (r: T)
    ensures
        r == *old(dest),
        *final(dest) == src,
;

impl GroupedHashAggregate {
    /// End of input: drain the group builders and accumulators into the
    /// output batch, one row per group in first-observation order, the
    /// group key columns followed by one value column per aggregate. With
    /// no input rows this is an empty batch with the declared output
    /// schema.
    pub fn input_done(&mut self)
        requires
            old(self).wf(),
            old(self).exec_state is ReadingInput,
        ensures
            final(self).same_config(old(self)),
            final(self).rows@ == old(self).rows@,
            final(self).exec_state matches ExecutionState::ProducingOutput(b) && b.wf()
                && b.schema@ == old(self).schema@ && b.num_rows == groups_of(old(self).rows@).len()
                && (forall|g: int|
                0 <= g < groups_of(old(self).rows@).len() ==> #[trigger] b.row(g) == Seq::new(
                    old(self).group_cols@.len(),
                    |w: int| groups_of(old(self).rows@)[g].0[w],
                ) + Seq::new(
                    old(self).accumulators@.len(),
                    |a: int| old(self).accumulators@[a].value_of(g),
                )),
    {
        let ghost groups = groups_of(self.rows@);
        let ng = self.builders.len();
        let na = self.accumulators.len();
        let total = self.map.len();
        let mut columns: Vec<Column> = Vec::new();
        let mut schema_out: Vec<DataType> = Vec::new();
        let mut w: usize = 0;
        while w < ng
            invariant
                0 <= w <= ng,
                old(self).wf(),
                groups == groups_of(old(self).rows@),
                self.same_config(old(self)),
                self.reservation == old(self).reservation,
                self.rows@ == old(self).rows@,
                self.exec_state is ReadingInput,
                self.map@ == old(self).map@,
                self.accumulators@ == old(self).accumulators@,
                ng == self.builders@.len(),
                ng == self.group_cols@.len(),
                na == self.accumulators@.len(),
                total == groups.len(),
                columns@.len() == w,
                schema_out@.len() == w,
                forall|w2: int| 0 <= w2 < w ==> (#[trigger] columns@[w2]).wf(),
                forall|w2: int|
                    0 <= w2 < w ==> (#[trigger] columns@[w2]).len_spec() == groups.len(),
                forall|w2: int, g: int|
                    0 <= w2 < w && 0 <= g < groups.len() ==> (#[trigger] columns@[w2].cell(g))
                        == groups[g].0[w2],
                forall|w2: int|
                    0 <= w2 < w ==> (#[trigger] columns@[w2]).matches_type_spec(
                        self.schema@[w2],
                    ),
                forall|w2: int| 0 <= w2 < w ==> #[trigger] schema_out@[w2] == self.schema@[w2],
                forall|w2: int|
                    w <= w2 < ng ==> #[trigger] self.builders@[w2] == old(self).builders@[w2],
            decreases ng - w,
        {
            proof {
                assert(self.builders@[w as int] == old(self).builders@[w as int]);
                assert(old(self).wf());
                assert(old(self).state_wf());
                assert(old(self).builders@[w as int].wf());
                assert(old(self).builders@[w as int].len_spec() == groups.len()) by {
                    assert(groups_of(old(self).rows@) == groups);
                }
                assert(self.builders@[w as int].wf());
            }
            let here = self.builders[w].len();
            let ghost pre_cols = columns@;
            let col = self.builders[w].take_n(here);
            proof {
                assert(old(self).config_wf());
                if self.schema@[w as int] == DataType::Int64 {
                    assert(old(self).builders@[w as int] is Primitive);
                    assert(col is Int64);
                } else {
                    assert(!(old(self).builders@[w as int] is Primitive));
                    assert(col is Bytes);
                    assert(self.schema@[w as int] == DataType::Bytes || self.schema@[w as int]
                        == DataType::BytesView) by {
                        match self.schema@[w as int] {
                            DataType::Int64 => {
                                assert(false);
                            },
                            DataType::Bytes => {},
                            DataType::BytesView => {},
                            DataType::Bool => {
                                assert(self.schema@[w as int] == self.input_schema@[
                                    self.group_cols@[w as int] as int]);
                                assert(false);
                            },
                        }
                    }
                }
                assert(col.matches_type_spec(self.schema@[w as int]));
                assert forall|g: int| 0 <= g < groups.len() implies col.cell(g) == groups[g].0[
                    w as int] by {
                    assert(old(self).builders@[w as int].cell(g) == groups[g].0[w as int]);
                }
            }
            columns.push(col);
            schema_out.push(self.schema[w]);
            w += 1;
            proof {
                assert forall|w2: int, g: int|
                    0 <= w2 < w && 0 <= g < groups.len() implies (#[trigger] columns@[w2].cell(
                    g,
                )) == groups[g].0[w2] by {
                    if w2 < w - 1 {
                        assert(columns@[w2] == pre_cols[w2]);
                    } else {
                        assert(columns@[w2] == col);
                    }
                }
            }
        }
        let mut a: usize = 0;
        while a < na
            invariant
                0 <= a <= na,
                old(self).wf(),
                groups == groups_of(old(self).rows@),
                self.same_config(old(self)),
                self.reservation == old(self).reservation,
                self.rows@ == old(self).rows@,
                self.exec_state is ReadingInput,
                self.accumulators@ == old(self).accumulators@,
                ng == self.group_cols@.len(),
                na == self.accumulators@.len(),
                total == groups.len(),
                ng + na == self.schema@.len(),
                columns@.len() == ng + a,
                schema_out@.len() == ng + a,
                forall|w2: int| 0 <= w2 < ng + a ==> (#[trigger] columns@[w2]).wf(),
                forall|w2: int|
                    0 <= w2 < ng + a ==> (#[trigger] columns@[w2]).len_spec() == groups.len(),
                forall|w2: int, g: int|
                    0 <= w2 < ng && 0 <= g < groups.len() ==> (#[trigger] columns@[w2].cell(g))
                        == groups[g].0[w2],
                forall|a2: int, g: int|
                    0 <= a2 < a && 0 <= g < groups.len() ==> (#[trigger] columns@[ng + a2].cell(
                        g,
                    )) == old(self).accumulators@[a2].value_of(g),
                forall|w2: int|
                    0 <= w2 < ng + a ==> (#[trigger] columns@[w2]).matches_type_spec(
                        self.schema@[w2],
                    ),
                forall|w2: int|
                    0 <= w2 < ng + a ==> #[trigger] schema_out@[w2] == self.schema@[w2],
            decreases na - a,
        {
            let col = self.accumulators[a].evaluate();
            columns.push(col);
            let sl = self.schema.len();
            proof {
                assert(sl == ng + na);
            }
            let idx = ng + a;
            schema_out.push(self.schema[idx]);
            a += 1;
        }
        proof {
            assert(schema_out@ =~= self.schema@);
        }
        let batch = RecordBatch { schema: schema_out, columns, num_rows: total };
        proof {
            assert(batch.wf());
            assert forall|g: int| 0 <= g < groups.len() implies #[trigger] batch.row(g)
                == Seq::new(
                old(self).group_cols@.len(),
                |w2: int| groups[g].0[w2],
            ) + Seq::new(
                old(self).accumulators@.len(),
                |a2: int| old(self).accumulators@[a2].value_of(g),
            ) by {
                let rhs = Seq::new(
                    old(self).group_cols@.len(),
                    |w2: int| groups[g].0[w2],
                ) + Seq::new(
                    old(self).accumulators@.len(),
                    |a2: int| old(self).accumulators@[a2].value_of(g),
                );
                assert forall|c: int| 0 <= c < ng + na implies batch.row(g)[c] == rhs[c] by {
                    if c < ng {
                        assert(columns@[c].cell(g) == groups[g].0[c]);
                    } else {
                        let a2 = c - ng;
                        assert(columns@[ng + a2].cell(g) == old(self).accumulators@[
                            a2].value_of(g));
                    }
                }
                assert(batch.row(g) =~= rhs);
            }
        }
        self.exec_state = ExecutionState::ProducingOutput(batch);
    }

    /// Drain one output batch of at most the configured size; the output
    /// phase ends when everything has been emitted. After the end, and
    /// after any failure, there is nothing more.
    pub fn next_batch(&mut self) -> (r: Option<RecordBatch>)
        requires
            old(self).batch_size >= 1,
            old(self).exec_state matches ExecutionState::ProducingOutput(b) ==> b.wf(),
        ensures
            final(self).same_config(old(self)),
            old(self).exec_state is Done ==> r is None && final(self).exec_state is Done,
            old(self).exec_state is ReadingInput ==> r is None
                && final(self).exec_state is ReadingInput,
            old(self).exec_state matches ExecutionState::ProducingOutput(b) ==> {
                &&& r is Some
                &&& r->Some_0.wf()
                &&& r->Some_0.schema@ == b.schema@
                &&& r->Some_0.num_rows <= old(self).batch_size
                &&& r->Some_0.rows() == b.rows().take(
                    if b.num_rows <= old(self).batch_size {
                        b.num_rows as int
                    } else {
                        old(self).batch_size as int
                    },
                )
                &&& (b.num_rows <= old(self).batch_size ==> final(self).exec_state is Done)
                &&& (b.num_rows > old(self).batch_size ==> (final(self).exec_state matches
                    ExecutionState::ProducingOutput(rest) ==> rest.wf() && rest.schema@
                    == b.schema@ && rest.rows() == b.rows().skip(old(self).batch_size as int)) && (
                final(self).exec_state is ProducingOutput))
            },
    {
        let state = core::mem::replace(&mut self.exec_state, ExecutionState::Done);
        match state {
            ExecutionState::ReadingInput => {
                self.exec_state = ExecutionState::ReadingInput;
                None
            },
            ExecutionState::Done => None,
            ExecutionState::ProducingOutput(batch) => {
                if batch.num_rows <= self.batch_size {
                    proof {
                        assert(batch.rows().take(batch.num_rows as int) =~= batch.rows());
                    }
                    Some(batch)
                } else {
                    let first = batch.slice(0, self.batch_size);
                    let rest_len = batch.num_rows - self.batch_size;
                    let rest = batch.slice(self.batch_size, rest_len);
                    proof {
                        assert(first.rows() =~= batch.rows().take(self.batch_size as int));
                        assert(rest.rows() =~= batch.rows().skip(self.batch_size as int));
                    }
                    self.exec_state = ExecutionState::ProducingOutput(rest);
                    Some(first)
                }
            },
        }
    }
}

/// Aggregation law: the grouped state is a function of the concatenated
/// input rows alone, not of how they were cut into batches. Two
/// aggregators of the same configuration that absorbed the same rows —
/// each batch extends the row history, in order — hold the same groups
/// and, for every group, the same aggregate values, so they emit the same
/// set of (key, result) pairs. The rows carry the hashes computed for
/// them; feeding the same input twice yields the same hashes because one
/// fixed, process-lifetime hasher state computes them.
pub proof fn lemma_aggregation_independent_of_batching(
    x: &GroupedHashAggregate,
    y: &GroupedHashAggregate,
)
    requires
        x.wf(),
        y.wf(),
        x.rows@ == y.rows@,
        x.mode == y.mode,
        x.accumulators@.len() == y.accumulators@.len(),
        forall|a: int|
            0 <= a < x.accumulators@.len() ==> (#[trigger] x.accumulators@[a]).kind
                == y.accumulators@[a].kind,
    ensures
        x.groups() == y.groups(),
        forall|a: int, g: int|
            0 <= a < x.accumulators@.len() && 0 <= g < x.groups().len() ==> (
            #[trigger] x.accumulators@[a].value_of(g)) == y.accumulators@[a].value_of(g),
{
    assert forall|a: int, g: int|
        0 <= a < x.accumulators@.len() && 0 <= g < x.groups().len() implies (
    #[trigger] x.accumulators@[a].value_of(g)) == y.accumulators@[a].value_of(g) by {
        assert(x.accumulators@[a].sums@[g] == agg_sum(x.rows@, a, g));
        assert(y.accumulators@[a].sums@[g] == agg_sum(y.rows@, a, g));
        assert(x.accumulators@[a].counts@[g] == count_spec(x.mode, x.accumulators@[a].kind, x.rows@, a, g));
        assert(y.accumulators@[a].counts@[g] == count_spec(y.mode, y.accumulators@[a].kind, y.rows@, a, g));
    }
}

} // verus!
