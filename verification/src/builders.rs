//! Per-data-type group-value builders: in-place stores of the distinct
//! group-key values seen so far, supporting equality against an incoming
//! row without materializing a comparison, and emission as typed columns.

use vstd::prelude::*;

use crate::data::{sat_add_spec, BytesColumn, Cell, Column, PrimitiveColumn};

verus! {

/// The null-equality rule of group keys: two nulls are equal, a null never
/// equals a value, values compare by value.
pub open spec fn cell_eq(a: Cell, b: Cell) -> bool {
    match a {
        Cell::Null => b is Null,
        Cell::Int(u) => match b {
            Cell::Int(v) => u == v,
            _ => false,
        },
        Cell::Bytes(s) => match b {
            Cell::Bytes(t) => s == t,
            _ => false,
        },
        Cell::Bool(u) => match b {
            Cell::Bool(v) => u == v,
            _ => false,
        },
    }
}

/// Short-circuit equality on nullness alone: two nulls are equal, exactly
/// one null is unequal, and two values need a value comparison.
pub fn nulls_equal_to(lhs_null: bool, rhs_null: bool) -> (r: Option<bool>)
    ensures
        r == (if lhs_null && rhs_null {
            Some(true)
        } else if lhs_null != rhs_null {
            Some(false)
        } else {
            Option::<bool>::None
        }),
{
    match (lhs_null, rhs_null) {
        (true, true) => Some(true),
        (false, true) => Some(false),
        (true, false) => Some(false),
        _ => None,
    }
}

/// A builder of primitive group values: a packed value buffer plus a null
/// mask, the null check skipped when the input is known non-nullable.
pub struct PrimitiveGroupValueBuilder {
    pub group_values: Vec<i64>,
    pub nulls: Vec<bool>,
    pub nullable: bool,
}

impl PrimitiveGroupValueBuilder {
    pub open spec fn wf(&self) -> bool {
        self.nulls@.len() == self.group_values@.len()
    }

    pub open spec fn len_spec(&self) -> nat {
        self.group_values@.len()
    }

    /// The stored group value at `i`.
    pub open spec fn cell(&self, i: int) -> Cell {
        if self.nullable && self.nulls@[i] {
            Cell::Null
        } else {
            Cell::Int(self.group_values@[i])
        }
    }

    pub fn new(nullable: bool) -> (r: Self)
        ensures
            r.wf(),
            r.len_spec() == 0,
            r.nullable == nullable,
    {
        PrimitiveGroupValueBuilder { group_values: Vec::new(), nulls: Vec::new(), nullable }
    }

    /// Whether the stored row equals the incoming row, two nulls counting
    /// as equal. A non-nullable builder must only see non-null input.
    pub fn equal_to(&self, lhs_row: usize, array: &PrimitiveColumn, rhs_row: usize) -> (r: bool)
        requires
            self.wf(),
            array.wf(),
            lhs_row < self.len_spec(),
            rhs_row < array.len_spec(),
            !self.nullable ==> array.cell(rhs_row as int) is Int && self.cell(lhs_row as int) is Int,
        ensures
            r == cell_eq(self.cell(lhs_row as int), array.cell(rhs_row as int)),
    {
        if self.nullable {
            let exist_null = self.nulls[lhs_row];
            let input_null = array.is_null(rhs_row);
            match nulls_equal_to(exist_null, input_null) {
                Some(result) => {
                    return result;
                },
                None => {},
            }
            self.group_values[lhs_row] == array.value(rhs_row)
        } else {
            self.group_values[lhs_row] == array.value(rhs_row)
        }
    }

    /// Append the incoming row's value, or record a null.
    pub fn append_val(&mut self, array: &PrimitiveColumn, row: usize)
        requires
            old(self).wf(),
            array.wf(),
            row < array.len_spec(),
            !old(self).nullable ==> array.cell(row as int) is Int,
        ensures
            final(self).wf(),
            final(self).len_spec() == old(self).len_spec() + 1,
            forall|i: int|
                0 <= i < old(self).len_spec() ==> final(self).cell(i) == old(self).cell(i),
            final(self).nullable == old(self).nullable,
            final(self).cell(old(self).len_spec() as int) == array.cell(row as int),
    {
        if self.nullable {
            if array.is_null(row) {
                self.nulls.push(true);
                self.group_values.push(0);
            } else {
                self.nulls.push(false);
                self.group_values.push(array.value(row));
            }
        } else {
            self.nulls.push(false);
            self.group_values.push(array.value(row));
        }
    }

    pub fn len(&self) -> (r: usize)
        requires
            self.wf(),
        ensures
            r == self.len_spec(),
    {
        self.group_values.len()
    }

    /// The bytes this builder holds: the packed values and the null mask.
    pub fn size(&self) -> (r: usize)
        ensures
            r as nat == sat_add_spec(
                sat_add_spec(self.group_values@.len(), self.group_values@.len()),
                self.nulls@.len(),
            ),
    {
        crate::data::sat_add(
            crate::data::sat_add(self.group_values.len(), self.group_values.len()),
            self.nulls.len(),
        )
    }

    /// All stored values, as a typed column; consumes the builder.
    #[verifier::loop_isolation(false)]
    pub fn build(self) -> (r: Column)
        requires
            self.wf(),
        ensures
            r.wf(),
            r is Int64,
            r.len_spec() == self.len_spec(),
            forall|i: int| 0 <= i < self.len_spec() ==> r.cell(i) == self.cell(i),
    {
        let PrimitiveGroupValueBuilder { group_values, nulls, nullable } = self;
        let ghost gv = group_values@;
        let ghost nl = nulls@;
        let n = group_values.len();
        let mut valid: Vec<bool> = Vec::new();
        let mut i: usize = 0;
        while i < n
            invariant
                0 <= i <= n,
                group_values@ == gv,
                nulls@ == nl,
                n == gv.len(),
                nl.len() == gv.len(),
                valid@.len() == i,
                forall|j: int|
                    0 <= j < i ==> #[trigger] valid@[j] == (!nullable || !nl[j]),
            decreases n - i,
        {
            let ghost old_valid = valid@;
            let is_valid = if nullable {
                !nulls[i]
            } else {
                true
            };
            proof {
                assert(is_valid == (!nullable || !nl[i as int]));
            }
            valid.push(is_valid);
            i += 1;
            proof {
                assert(valid@ == old_valid.push(is_valid));
                assert forall|j: int| 0 <= j < i implies #[trigger] valid@[j] == (!nullable
                    || !nl[j]) by {
                    if j < i - 1 {
                        assert(valid@[j] == old_valid[j]);
                    } else {
                        assert(j == i - 1);
                        assert(valid@[j] == is_valid);
                    }
                }
            }
        }
        let r = Column::Int64(PrimitiveColumn { values: group_values, valid });
        proof {
            assert(self.nullable == nullable);
            assert(self.group_values@ == gv);
            assert(self.nulls@ == nl);
            assert forall|i2: int| 0 <= i2 < self.len_spec() implies r.cell(i2) == self.cell(
                i2,
            ) by {
                assert(valid@[i2] == (!nullable || !nl[i2]));
            }
        }
        r
    }

    /// The first `n` stored values as a typed column; the builder keeps
    /// the rest, shifted to the start.
    pub fn take_n(&mut self, n: usize) -> (r: Column)
        requires
            old(self).wf(),
            n <= old(self).len_spec(),
        ensures
            final(self).wf(),
            final(self).len_spec() == old(self).len_spec() - n,
            final(self).nullable == old(self).nullable,
            forall|i: int|
                0 <= i < final(self).len_spec() ==> final(self).cell(i) == old(self).cell(n + i),
            r.wf(),
            r is Int64,
            r.len_spec() == n,
            forall|i: int| 0 <= i < n ==> r.cell(i) == old(self).cell(i),
    {
        let mut first_values: Vec<i64> = Vec::new();
        let mut first_valid: Vec<bool> = Vec::new();
        let total = self.group_values.len();
        let mut i: usize = 0;
        while i < n
            invariant
                0 <= i <= n,
                *self == *old(self),
                self.wf(),
                total == self.len_spec(),
                n <= total,
                first_values@.len() == i,
                first_valid@.len() == i,
                forall|j: int|
                    0 <= j < i ==> (if #[trigger] first_valid@[j] {
                        Cell::Int(first_values@[j])
                    } else {
                        Cell::Null
                    }) == self.cell(j),
            decreases n - i,
        {
            let ghost ofv = first_values@;
            let ghost ofd = first_valid@;
            let is_null = if self.nullable {
                self.nulls[i]
            } else {
                false
            };
            first_values.push(self.group_values[i]);
            first_valid.push(!is_null);
            proof {
                assert forall|j: int|
                    0 <= j < i + 1 implies (if #[trigger] first_valid@[j] {
                    Cell::Int(first_values@[j])
                } else {
                    Cell::Null
                }) == self.cell(j) by {
                    if j < i {
                        assert(first_values@[j] == ofv[j]);
                        assert(first_valid@[j] == ofd[j]);
                        assert((if ofd[j] {
                            Cell::Int(ofv[j])
                        } else {
                            Cell::Null
                        }) == self.cell(j));
                    } else {
                        assert(first_values@[j] == self.group_values@[i as int]);
                        assert(first_valid@[j] == !is_null);
                    }
                }
            }
            i += 1;
        }
        let mut rest_values: Vec<i64> = Vec::new();
        let mut rest_nulls: Vec<bool> = Vec::new();
        let mut w: usize = n;
        while w < total
            invariant
                n <= w <= total,
                *self == *old(self),
                self.wf(),
                total == self.len_spec(),
                rest_values@.len() == w - n,
                rest_nulls@.len() == w - n,
                forall|j: int|
                    0 <= j < w - n ==> (if #[trigger] rest_nulls@[j] {
                        Cell::Null
                    } else {
                        Cell::Int(rest_values@[j])
                    }) == self.cell(n + j),
            decreases total - w,
        {
            let ghost orv = rest_values@;
            let ghost orn = rest_nulls@;
            let is_null = if self.nullable {
                self.nulls[w]
            } else {
                false
            };
            rest_values.push(self.group_values[w]);
            rest_nulls.push(is_null);
            proof {
                assert forall|j: int|
                    0 <= j < w + 1 - n implies (if #[trigger] rest_nulls@[j] {
                    Cell::Null
                } else {
                    Cell::Int(rest_values@[j])
                }) == self.cell(n + j) by {
                    if j < w - n {
                        assert(rest_values@[j] == orv[j]);
                        assert(rest_nulls@[j] == orn[j]);
                        assert((if orn[j] {
                            Cell::Null
                        } else {
                            Cell::Int(orv[j])
                        }) == self.cell(n + j));
                    } else {
                        assert(rest_values@[j] == self.group_values@[w as int]);
                        assert(rest_nulls@[j] == is_null);
                    }
                }
            }
            w += 1;
        }
        let ghost pre = *self;
        self.group_values = rest_values;
        self.nulls = rest_nulls;
        proof {
            assert forall|i2: int|
                0 <= i2 < self.len_spec() implies self.cell(i2) == old(self).cell(n + i2) by {
                assert((if self.nulls@[i2] {
                    Cell::Null
                } else {
                    Cell::Int(self.group_values@[i2])
                }) == old(self).cell(n + i2));
            }
        }
        Column::Int64(PrimitiveColumn { values: first_values, valid: first_valid })
    }
}

/// The output flavor of a byte-string group column.
#[derive(Clone, Copy, PartialEq, Eq, Structural, Debug)]
pub enum OutputType {
    Utf8,
    Binary,
}

/// Whether two byte slices hold the same bytes.
pub fn bytes_eq(a: &[u8], b: &[u8]) -> (r: bool)
    ensures
        r == (a@ == b@),
{
    if a.len() != b.len() {
        return false;
    }
    let n = a.len();
    let mut i: usize = 0;
    while i < n
        invariant
            0 <= i <= n,
            n == a@.len(),
            n == b@.len(),
            forall|j: int| 0 <= j < i ==> a@[j] == b@[j],
        decreases n - i,
    {
        if a[i] != b[i] {
            return false;
        }
        i += 1;
    }
    proof {
        assert(a@ =~= b@);
    }
    true
}

/// A builder of byte-string group values: one concatenated value buffer,
/// an offset per stored value, and a null mask; a null takes a zero-length
/// slot.
pub struct ByteGroupValueBuilder {
    pub output_type: OutputType,
    pub buffer: Vec<u8>,
    pub offsets: Vec<usize>,
    pub nulls: Vec<bool>,
}

impl ByteGroupValueBuilder {
    pub open spec fn wf(&self) -> bool {
        &&& self.offsets@.len() == self.nulls@.len() + 1
        &&& self.offsets@[0] == 0
        &&& forall|i: int|
            0 <= i < self.nulls@.len() ==> #[trigger] self.offsets@[i] <= self.offsets@[i + 1]
        &&& self.offsets@[self.nulls@.len() as int] == self.buffer@.len()
    }

    pub open spec fn len_spec(&self) -> nat {
        self.nulls@.len()
    }

    /// The stored group value at `i`.
    pub open spec fn cell(&self, i: int) -> Cell {
        if self.nulls@[i] {
            Cell::Null
        } else {
            Cell::Bytes(
                self.buffer@.subrange(self.offsets@[i] as int, self.offsets@[i + 1] as int),
            )
        }
    }

    pub fn new(output_type: OutputType) -> (r: Self)
        ensures
            r.wf(),
            r.len_spec() == 0,
            r.output_type == output_type,
    {
        let mut offsets: Vec<usize> = Vec::new();
        offsets.push(0);
        ByteGroupValueBuilder { output_type, buffer: Vec::new(), offsets, nulls: Vec::new() }
    }

    /// The bounds of a stored row are inside the buffer.
    proof fn lemma_row_bounds(&self, i: int)
        requires
            self.wf(),
            0 <= i < self.len_spec(),
        ensures
            self.offsets@[i] <= self.offsets@[i + 1] <= self.buffer@.len(),
        decreases self.len_spec() - i,
    {
        if i + 1 < self.len_spec() {
            self.lemma_row_bounds(i + 1);
        }
    }

    /// A copy of the bytes of the stored row, irrespective of nulls.
    pub fn value(&self, row: usize) -> (r: Vec<u8>)
        requires
            self.wf(),
            row < self.len_spec(),
        ensures
            r@ == self.buffer@.subrange(
                self.offsets@[row as int] as int,
                self.offsets@[row as int + 1] as int,
            ),
    {
        proof {
            self.lemma_row_bounds(row as int);
            assert(self.offsets@.len() == self.nulls@.len() + 1);
            assert(row + 1 < self.offsets@.len());
        }
        let nl = self.nulls.len();
        proof {
            assert(row < nl);
        }
        let l = self.offsets[row];
        let next = row + 1;
        let rr = self.offsets[next];
        let mut out: Vec<u8> = Vec::new();
        let mut i: usize = l;
        while i < rr
            invariant
                l <= i <= rr,
                rr <= self.buffer@.len(),
                out@.len() == i - l,
                forall|j: int| 0 <= j < i - l ==> #[trigger] out@[j] == self.buffer@[l + j],
            decreases rr - i,
        {
            let ghost pre = out@;
            out.push(self.buffer[i]);
            i += 1;
            proof {
                assert forall|j: int| 0 <= j < i - l implies #[trigger] out@[j] == self.buffer@[
                    l + j] by {
                    if j < i - 1 - l {
                        assert(out@[j] == pre[j]);
                    }
                }
            }
        }
        proof {
            assert(out@ =~= self.buffer@.subrange(l as int, rr as int));
        }
        out
    }

    /// Append one value (or a null) to the store.
    fn append_raw(&mut self, bytes: &[u8], is_null: bool)
        requires
            old(self).wf(),
            is_null ==> bytes@.len() == 0,
        ensures
            final(self).wf(),
            final(self).len_spec() == old(self).len_spec() + 1,
            final(self).output_type == old(self).output_type,
            forall|i: int|
                0 <= i < old(self).len_spec() ==> final(self).cell(i) == old(self).cell(i),
            final(self).cell(old(self).len_spec() as int) == (if is_null {
                Cell::Null
            } else {
                Cell::Bytes(bytes@)
            }),
    {
        let ghost old_self = *old(self);
        proof {
            assert(self.offsets@[self.nulls@.len() as int] == self.buffer@.len());
        }
        self.buffer.extend_from_slice(bytes);
        let new_len = self.buffer.len();
        self.offsets.push(new_len);
        self.nulls.push(is_null);
        proof {
            let n = old_self.nulls@.len() as int;
            assert forall|i: int|
                0 <= i < old_self.nulls@.len() implies #[trigger] self.offsets@[i]
                    <= self.offsets@[i + 1] by {
                assert(self.offsets@[i] == old_self.offsets@[i]);
                assert(self.offsets@[i + 1] == old_self.offsets@[i + 1]);
            }
            assert(self.offsets@[n] == old_self.buffer@.len());
            assert(self.offsets@[n + 1] == self.buffer@.len());
            assert forall|i: int| 0 <= i < old_self.nulls@.len() implies final(self).cell(i)
                == old_self.cell(i) by {
                old_self.lemma_row_bounds(i);
                assert(self.buffer@.subrange(
                    self.offsets@[i] as int,
                    self.offsets@[i + 1] as int,
                ) =~= old_self.buffer@.subrange(
                    old_self.offsets@[i] as int,
                    old_self.offsets@[i + 1] as int,
                ));
            }
            if !is_null {
                assert(self.buffer@.subrange(self.offsets@[n] as int, self.offsets@[n + 1] as int)
                    =~= bytes@);
            } else {
                assert(self.buffer@.subrange(self.offsets@[n] as int, self.offsets@[n + 1] as int)
                    =~= bytes@);
                assert(bytes@ =~= Seq::<u8>::empty());
            }
        }
    }

    /// Append the incoming row's value, or record a null as a zero-length
    /// slot.
    pub fn append_val(&mut self, array: &BytesColumn, row: usize)
        requires
            old(self).wf(),
            array.wf(),
            row < array.len_spec(),
        ensures
            final(self).wf(),
            final(self).len_spec() == old(self).len_spec() + 1,
            final(self).output_type == old(self).output_type,
            forall|i: int|
                0 <= i < old(self).len_spec() ==> final(self).cell(i) == old(self).cell(i),
            final(self).cell(old(self).len_spec() as int) == array.cell(row as int),
    {
        if array.is_null(row) {
            let empty: Vec<u8> = Vec::new();
            self.append_raw(empty.as_slice(), true);
        } else {
            let v = array.value(row);
            self.append_raw(v.as_slice(), false);
        }
    }

    /// Whether the stored row equals the incoming row, two nulls counting
    /// as equal.
    pub fn equal_to(&self, lhs_row: usize, array: &BytesColumn, rhs_row: usize) -> (r: bool)
        requires
            self.wf(),
            array.wf(),
            lhs_row < self.len_spec(),
            rhs_row < array.len_spec(),
        ensures
            r == cell_eq(self.cell(lhs_row as int), array.cell(rhs_row as int)),
    {
        let exist_null = self.nulls[lhs_row];
        let input_null = array.is_null(rhs_row);
        match nulls_equal_to(exist_null, input_null) {
            Some(result) => {
                return result;
            },
            None => {},
        }
        let mine = self.value(lhs_row);
        let theirs = array.value(rhs_row);
        bytes_eq(mine.as_slice(), theirs.as_slice())
    }

    pub fn len(&self) -> (r: usize)
        requires
            self.wf(),
        ensures
            r == self.len_spec(),
    {
        self.nulls.len()
    }

    /// The bytes this builder holds: the value buffer, the offsets and
    /// the null mask.
    pub fn size(&self) -> (r: usize)
        ensures
            r as nat == sat_add_spec(
                sat_add_spec(self.buffer@.len(), self.offsets@.len()),
                self.nulls@.len(),
            ),
    {
        crate::data::sat_add(
            crate::data::sat_add(self.buffer.len(), self.offsets.len()),
            self.nulls.len(),
        )
    }

    /// All stored values, as a typed column; consumes the builder.
    pub fn build(self) -> (r: Column)
        requires
            self.wf(),
        ensures
            r.wf(),
            r is Bytes,
            r.len_spec() == self.len_spec(),
            forall|i: int| 0 <= i < self.len_spec() ==> r.cell(i) == self.cell(i),
    {
        let n = self.nulls.len();
        let mut values: Vec<Vec<u8>> = Vec::new();
        let mut valid: Vec<bool> = Vec::new();
        let mut i: usize = 0;
        while i < n
            invariant
                0 <= i <= n,
                self.wf(),
                n == self.len_spec(),
                values@.len() == i,
                valid@.len() == i,
                forall|j: int|
                    0 <= j < i ==> (if #[trigger] valid@[j] {
                        Cell::Bytes(values@[j]@)
                    } else {
                        Cell::Null
                    }) == self.cell(j),
            decreases n - i,
        {
            let ghost ov = values@;
            let ghost od = valid@;
            let v = self.value(i);
            let is_null = self.nulls[i];
            values.push(v);
            valid.push(!is_null);
            i += 1;
            proof {
                assert forall|j: int|
                    0 <= j < i implies (if #[trigger] valid@[j] {
                    Cell::Bytes(values@[j]@)
                } else {
                    Cell::Null
                }) == self.cell(j) by {
                    if j < i - 1 {
                        assert(values@[j] == ov[j]);
                        assert(valid@[j] == od[j]);
                        assert((if od[j] {
                            Cell::Bytes(ov[j]@)
                        } else {
                            Cell::Null
                        }) == self.cell(j));
                    }
                }
            }
        }
        Column::Bytes(BytesColumn { values, valid })
    }

    /// The first `n` stored values as a typed column; the builder keeps
    /// the rest, its buffer truncated to the surviving values and every
    /// surviving offset shifted down by the bytes that left.
    pub fn take_n(&mut self, n: usize) -> (r: Column)
        requires
            old(self).wf(),
            n <= old(self).len_spec(),
        ensures
            final(self).wf(),
            final(self).len_spec() == old(self).len_spec() - n,
            final(self).output_type == old(self).output_type,
            forall|i: int|
                0 <= i < final(self).len_spec() ==> final(self).cell(i) == old(self).cell(n + i),
            r.wf(),
            r is Bytes,
            r.len_spec() == n,
            forall|i: int| 0 <= i < n ==> r.cell(i) == old(self).cell(i),
    {
        let total = self.nulls.len();
        let mut first_values: Vec<Vec<u8>> = Vec::new();
        let mut first_valid: Vec<bool> = Vec::new();
        let mut i: usize = 0;
        while i < n
            invariant
                0 <= i <= n,
                *self == *old(self),
                self.wf(),
                total == self.len_spec(),
                n <= total,
                first_values@.len() == i,
                first_valid@.len() == i,
                forall|j: int|
                    0 <= j < i ==> (if #[trigger] first_valid@[j] {
                        Cell::Bytes(first_values@[j]@)
                    } else {
                        Cell::Null
                    }) == self.cell(j),
            decreases n - i,
        {
            let ghost ov = first_values@;
            let ghost od = first_valid@;
            let v = self.value(i);
            let is_null = self.nulls[i];
            first_values.push(v);
            first_valid.push(!is_null);
            i += 1;
            proof {
                assert forall|j: int|
                    0 <= j < i implies (if #[trigger] first_valid@[j] {
                    Cell::Bytes(first_values@[j]@)
                } else {
                    Cell::Null
                }) == self.cell(j) by {
                    if j < i - 1 {
                        assert(first_values@[j] == ov[j]);
                        assert(first_valid@[j] == od[j]);
                        assert((if od[j] {
                            Cell::Bytes(ov[j]@)
                        } else {
                            Cell::Null
                        }) == self.cell(j));
                    }
                }
            }
        }
        // rebuild the retained suffix: surviving offsets shift down by the
        // bytes that left with the emitted prefix
        let mut rest = ByteGroupValueBuilder::new(self.output_type);
        let mut w: usize = n;
        while w < total
            invariant
                n <= w <= total,
                *self == *old(self),
                self.wf(),
                total == self.len_spec(),
                rest.wf(),
                rest.output_type == old(self).output_type,
                rest.len_spec() == w - n,
                forall|j: int| 0 <= j < w - n ==> #[trigger] rest.cell(j) == self.cell(n + j),
            decreases total - w,
        {
            let v = self.value(w);
            let is_null = self.nulls[w];
            if is_null {
                let empty: Vec<u8> = Vec::new();
                rest.append_raw(empty.as_slice(), true);
            } else {
                rest.append_raw(v.as_slice(), false);
            }
            proof {
                assert(rest.cell((w - n) as int) == self.cell(w as int));
            }
            w += 1;
        }
        let ghost old_self = *old(self);
        self.buffer = rest.buffer;
        self.offsets = rest.offsets;
        self.nulls = rest.nulls;
        proof {
            assert forall|i2: int|
                0 <= i2 < self.len_spec() implies self.cell(i2) == old_self.cell(n + i2) by {}
        }
        Column::Bytes(BytesColumn { values: first_values, valid: first_valid })
    }
}

/// The bytes a group-value builder holds, per its physical shape.
pub open spec fn builder_size_spec(b: GroupColumn) -> nat {
    match b {
        GroupColumn::Primitive(p) => sat_add_spec(
            sat_add_spec(p.group_values@.len(), p.group_values@.len()),
            p.nulls@.len(),
        ),
        GroupColumn::Bytes(p) => sat_add_spec(
            sat_add_spec(p.buffer@.len(), p.offsets@.len()),
            p.nulls@.len(),
        ),
        GroupColumn::BytesView(p) => crate::data::bytes_size_from(
            p.completed@,
            sat_add_spec(
                sat_add_spec(p.views@.len(), p.views@.len()),
                sat_add_spec(p.in_progress@.len(), p.nulls@.len()),
            ),
            0,
        ),
    }
}

/// A group-value builder of either supported physical shape, dispatched
/// by the group column's data type.
pub enum GroupColumn {
    Primitive(PrimitiveGroupValueBuilder),
    Bytes(ByteGroupValueBuilder),
    BytesView(ByteGroupValueViewBuilder),
}

impl GroupColumn {
    pub open spec fn wf(&self) -> bool {
        match self {
            GroupColumn::Primitive(b) => b.wf(),
            GroupColumn::Bytes(b) => b.wf(),
            GroupColumn::BytesView(b) => b.wf(),
        }
    }

    pub open spec fn len_spec(&self) -> nat {
        match self {
            GroupColumn::Primitive(b) => b.len_spec(),
            GroupColumn::Bytes(b) => b.len_spec(),
            GroupColumn::BytesView(b) => b.len_spec(),
        }
    }

    pub open spec fn cell(&self, i: int) -> Cell {
        match self {
            GroupColumn::Primitive(b) => b.cell(i),
            GroupColumn::Bytes(b) => b.cell(i),
            GroupColumn::BytesView(b) => b.cell(i),
        }
    }

    /// Whether this builder accepts cells of the given column.
    pub open spec fn accepts(&self, col: &Column) -> bool {
        match self {
            GroupColumn::Primitive(b) => col is Int64 && (b.nullable || forall|i: int|
                0 <= i < col.len_spec() ==> !(#[trigger] col.cell(i) is Null)),
            GroupColumn::Bytes(_) => col is Bytes,
            GroupColumn::BytesView(_) => col is Bytes,
        }
    }

    /// Whether the stored row equals the incoming row, two nulls counting
    /// as equal.
    pub fn equal_to(&self, lhs_row: usize, col: &Column, rhs_row: usize) -> (r: bool)
        requires
            self.wf(),
            col.wf(),
            lhs_row < self.len_spec(),
            rhs_row < col.len_spec(),
            self.accepts(col),
        ensures
            r == cell_eq(self.cell(lhs_row as int), col.cell(rhs_row as int)),
    {
        match self {
            GroupColumn::Primitive(b) => match col {
                Column::Int64(pc) => b.equal_to(lhs_row, pc, rhs_row),
                _ => {
                    proof {
                        assert(false);
                    }
                    false
                },
            },
            GroupColumn::Bytes(b) => match col {
                Column::Bytes(bc) => b.equal_to(lhs_row, bc, rhs_row),
                _ => {
                    proof {
                        assert(false);
                    }
                    false
                },
            },
            GroupColumn::BytesView(b) => match col {
                Column::Bytes(bc) => b.equal_to(lhs_row, bc, rhs_row),
                _ => {
                    proof {
                        assert(false);
                    }
                    false
                },
            },
        }
    }

    /// Append the incoming row's value.
    pub fn append_val(&mut self, col: &Column, row: usize)
        requires
            old(self).wf(),
            col.wf(),
            row < col.len_spec(),
            old(self).accepts(col),
        ensures
            final(self).wf(),
            final(self).len_spec() == old(self).len_spec() + 1,
            forall|i: int|
                0 <= i < old(self).len_spec() ==> final(self).cell(i) == old(self).cell(i),
            final(self).cell(old(self).len_spec() as int) == col.cell(row as int),
            forall|c2: &Column| final(self).accepts(c2) == old(self).accepts(c2),
            ((*final(self)) is Primitive) == ((*old(self)) is Primitive),
            (*old(self)) is Primitive ==> (*final(self))->Primitive_0.nullable == (*old(
                self,
            ))->Primitive_0.nullable,
    {
        match self {
            GroupColumn::Primitive(b) => match col {
                Column::Int64(pc) => b.append_val(pc, row),
                _ => {
                    proof {
                        assert(false);
                    }
                },
            },
            GroupColumn::Bytes(b) => match col {
                Column::Bytes(bc) => b.append_val(bc, row),
                _ => {
                    proof {
                        assert(false);
                    }
                },
            },
            GroupColumn::BytesView(b) => match col {
                Column::Bytes(bc) => b.append_val(bc, row),
                _ => {
                    proof {
                        assert(false);
                    }
                },
            },
        }
    }

    pub fn len(&self) -> (r: usize)
        requires
            self.wf(),
        ensures
            r == self.len_spec(),
    {
        match self {
            GroupColumn::Primitive(b) => b.len(),
            GroupColumn::Bytes(b) => b.len(),
            GroupColumn::BytesView(b) => b.len(),
        }
    }

    /// The bytes this builder holds.
    pub fn size(&self) -> (r: usize)
        ensures
            r as nat == builder_size_spec(*self),
    {
        match self {
            GroupColumn::Primitive(b) => b.size(),
            GroupColumn::Bytes(b) => b.size(),
            GroupColumn::BytesView(b) => b.size(),
        }
    }

    /// All stored values as a typed column; consumes the builder.
    pub fn build(self) -> (r: Column)
        requires
            self.wf(),
        ensures
            r.wf(),
            r.len_spec() == self.len_spec(),
            forall|i: int| 0 <= i < self.len_spec() ==> r.cell(i) == self.cell(i),
            self is Primitive ==> r is Int64,
            !(self is Primitive) ==> r is Bytes,
    {
        match self {
            GroupColumn::Primitive(b) => b.build(),
            GroupColumn::Bytes(b) => b.build(),
            GroupColumn::BytesView(b) => b.build(),
        }
    }

    /// The first `n` stored values as a typed column; the builder keeps
    /// the rest.
    pub fn take_n(&mut self, n: usize) -> (r: Column)
        requires
            old(self).wf(),
            n <= old(self).len_spec(),
        ensures
            final(self).wf(),
            final(self).len_spec() == old(self).len_spec() - n,
            forall|i: int|
                0 <= i < final(self).len_spec() ==> final(self).cell(i) == old(self).cell(n + i),
            r.wf(),
            r.len_spec() == n,
            forall|i: int| 0 <= i < n ==> r.cell(i) == old(self).cell(i),
            forall|c2: &Column| final(self).accepts(c2) == old(self).accepts(c2),
            ((*final(self)) is Primitive) == ((*old(self)) is Primitive),
            (*old(self)) is Primitive ==> (*final(self))->Primitive_0.nullable == (*old(
                self,
            ))->Primitive_0.nullable,
            (*old(self)) is Primitive ==> r is Int64,
            !((*old(self)) is Primitive) ==> r is Bytes,
    {
        match self {
            GroupColumn::Primitive(b) => b.take_n(n),
            GroupColumn::Bytes(b) => b.take_n(n),
            GroupColumn::BytesView(b) => b.take_n(n),
        }
    }
}


/// One 16-byte view of a stored byte-string value: a short value lives
/// inline; a longer value records which spill block holds it, where, and
/// its first four bytes for cheap inequality checks.
pub enum ByteView {
    Inline { data: Vec<u8> },
    Spilled { buffer_index: usize, offset: usize, length: usize, prefix: Vec<u8> },
}

/// A builder of view-encoded byte-string group values: values of at most
/// twelve bytes are stored inline in their views; longer values spill
/// into an append-only chain of capped-size blocks.
pub struct ByteGroupValueViewBuilder {
    pub output_type: OutputType,
    pub views: Vec<ByteView>,
    pub in_progress: Vec<u8>,
    pub completed: Vec<Vec<u8>>,
    pub max_block_size: usize,
    pub nulls: Vec<bool>,
}

impl ByteGroupValueViewBuilder {
    /// The bytes a view stands for.
    pub open spec fn view_bytes(&self, i: int) -> Seq<u8> {
        match self.views@[i] {
            ByteView::Inline { data } => data@,
            ByteView::Spilled { buffer_index, offset, length, prefix } => {
                if buffer_index < self.completed@.len() {
                    self.completed@[buffer_index as int]@.subrange(
                        offset as int,
                        offset + length,
                    )
                } else {
                    self.in_progress@.subrange(offset as int, offset + length)
                }
            },
        }
    }

    pub open spec fn view_ok(&self, i: int) -> bool {
        match self.views@[i] {
            ByteView::Inline { data } => data@.len() <= 12,
            ByteView::Spilled { buffer_index, offset, length, prefix } => {
                &&& length > 12
                &&& prefix@.len() == 4
                &&& buffer_index <= self.completed@.len()
                &&& (if buffer_index < self.completed@.len() {
                    offset + length <= self.completed@[buffer_index as int]@.len()
                } else {
                    offset + length <= self.in_progress@.len()
                })
                &&& prefix@ == self.view_bytes(i).take(4)
            },
        }
    }

    /// The spill-block index of a spilled view; an inline view references
    /// no block.
    pub open spec fn spilled_block(&self, i: int) -> Option<int> {
        match self.views@[i] {
            ByteView::Inline { data } => None,
            ByteView::Spilled { buffer_index, .. } => Some(buffer_index as int),
        }
    }

    pub open spec fn wf(&self) -> bool {
        &&& self.nulls@.len() == self.views@.len()
        &&& forall|i: int| 0 <= i < self.views@.len() ==> self.view_ok(i)
        &&& forall|a: int, b: int|
            0 <= a < b < self.views@.len() && (#[trigger] self.spilled_block(a)) is Some && (
            #[trigger] self.spilled_block(b)) is Some ==> self.spilled_block(a)->Some_0
                <= self.spilled_block(b)->Some_0
    }

    pub open spec fn len_spec(&self) -> nat {
        self.views@.len()
    }

    /// The stored group value at `i`.
    pub open spec fn cell(&self, i: int) -> Cell {
        if self.nulls@[i] {
            Cell::Null
        } else {
            Cell::Bytes(self.view_bytes(i))
        }
    }

    pub fn new(output_type: OutputType) -> (r: Self)
        ensures
            r.wf(),
            r.len_spec() == 0,
            r.output_type == output_type,
            r.max_block_size == 8192,
    {
        ByteGroupValueViewBuilder {
            output_type,
            views: Vec::new(),
            in_progress: Vec::new(),
            completed: Vec::new(),
            max_block_size: 8192,
            nulls: Vec::new(),
        }
    }

    /// The same builder with another spill-block cap.
    pub fn with_max_block_size(self, max_block_size: usize) -> (r: Self)
        requires
            self.wf(),
        ensures
            r.wf(),
            r.len_spec() == self.len_spec(),
            r.output_type == self.output_type,
            r.max_block_size == max_block_size,
            forall|i: int| 0 <= i < self.len_spec() ==> r.cell(i) == self.cell(i),
    {
        let ByteGroupValueViewBuilder { output_type, views, in_progress, completed, nulls, .. } =
            self;
        let r = ByteGroupValueViewBuilder {
            output_type,
            views,
            in_progress,
            completed,
            max_block_size,
            nulls,
        };
        proof {
            assert forall|i: int| 0 <= i < r.views@.len() implies r.view_ok(i) && r.view_bytes(
                i,
            ) == self.view_bytes(i) by {
                assert(self.view_ok(i));
            }
            assert forall|i: int|
                0 <= i < r.views@.len() implies #[trigger] r.spilled_block(i)
                    == self.spilled_block(i) by {}
        }
        r
    }

    pub fn len(&self) -> (r: usize)
        requires
            self.wf(),
        ensures
            r == self.len_spec(),
    {
        self.views.len()
    }

    /// The bytes this builder holds: the views, the in-progress block,
    /// the null mask, and every completed spill block.
    pub fn size(&self) -> (r: usize)
        ensures
            r as nat == crate::data::bytes_size_from(
                self.completed@,
                sat_add_spec(
                    sat_add_spec(self.views@.len(), self.views@.len()),
                    sat_add_spec(self.in_progress@.len(), self.nulls@.len()),
                ),
                0,
            ),
    {
        let mut total: usize = crate::data::sat_add(
            crate::data::sat_add(self.views.len(), self.views.len()),
            crate::data::sat_add(self.in_progress.len(), self.nulls.len()),
        );
        let n = self.completed.len();
        let mut i: usize = 0;
        while i < n
            invariant
                0 <= i <= n,
                n == self.completed@.len(),
                crate::data::bytes_size_from(self.completed@, total as nat, i as int)
                    == crate::data::bytes_size_from(
                    self.completed@,
                    sat_add_spec(
                        sat_add_spec(self.views@.len(), self.views@.len()),
                        sat_add_spec(self.in_progress@.len(), self.nulls@.len()),
                    ),
                    0,
                ),
            decreases n - i,
        {
            total = crate::data::sat_add(total, self.completed[i].len());
            i += 1;
        }
        total
    }

    /// A copy of the bytes of the stored row, irrespective of nulls.
    pub fn value(&self, row: usize) -> (r: Vec<u8>)
        requires
            self.wf(),
            row < self.len_spec(),
        ensures
            r@ == self.view_bytes(row as int),
    {
        proof {
            assert(self.view_ok(row as int));
        }
        match &self.views[row] {
            ByteView::Inline { data } => {
                let mut out: Vec<u8> = Vec::new();
                out.extend_from_slice(data.as_slice());
                proof {
                    assert(out@ =~= self.view_bytes(row as int));
                }
                out
            },
            ByteView::Spilled { buffer_index, offset, length, prefix: _ } => {
                let bi = *buffer_index;
                let off = *offset;
                let len = *length;
                let mut out: Vec<u8> = Vec::new();
                if bi < self.completed.len() {
                    let block = &self.completed[bi];
                    let bl = block.len();
                    proof {
                        assert(off + len <= bl);
                    }
                    let end = off + len;
                    let mut j: usize = off;
                    while j < end
                        invariant
                            off <= j <= end,
                            end == off + len,
                            off + len <= block@.len(),
                            block == &self.completed@[bi as int],
                            out@.len() == j - off,
                            forall|w: int|
                                0 <= w < j - off ==> #[trigger] out@[w] == block@[off + w],
                        decreases end - j,
                    {
                        let ghost pre = out@;
                        out.push(block[j]);
                        j += 1;
                        proof {
                            assert forall|w: int|
                                0 <= w < j - off implies #[trigger] out@[w] == block@[off
                                + w] by {
                                if w < j - 1 - off {
                                    assert(out@[w] == pre[w]);
                                }
                            }
                        }
                    }
                    proof {
                        assert(out@ =~= self.view_bytes(row as int));
                    }
                } else {
                    let bl = self.in_progress.len();
                    proof {
                        assert(off + len <= bl);
                    }
                    let end = off + len;
                    let mut j: usize = off;
                    while j < end
                        invariant
                            off <= j <= end,
                            end == off + len,
                            off + len <= self.in_progress@.len(),
                            out@.len() == j - off,
                            forall|w: int|
                                0 <= w < j - off ==> #[trigger] out@[w] == self.in_progress@[off
                                    + w],
                        decreases end - j,
                    {
                        let ghost pre = out@;
                        out.push(self.in_progress[j]);
                        j += 1;
                        proof {
                            assert forall|w: int|
                                0 <= w < j - off implies #[trigger] out@[w]
                                    == self.in_progress@[off + w] by {
                                if w < j - 1 - off {
                                    assert(out@[w] == pre[w]);
                                }
                            }
                        }
                    }
                    proof {
                        assert(out@ =~= self.view_bytes(row as int));
                    }
                }
                out
            },
        }
    }
}

impl ByteGroupValueViewBuilder {
    /// Append the incoming row's value: a null takes an empty inline
    /// view; a value of at most twelve bytes is stored inline in its
    /// view; a longer value spills into the in-progress block, which is
    /// flushed to the completed chain first when it cannot take it.
    pub fn append_val(&mut self, array: &BytesColumn, row: usize)
        requires
            old(self).wf(),
            array.wf(),
            row < array.len_spec(),
        ensures
            final(self).wf(),
            final(self).len_spec() == old(self).len_spec() + 1,
            final(self).output_type == old(self).output_type,
            final(self).max_block_size == old(self).max_block_size,
            forall|i: int|
                0 <= i < old(self).len_spec() ==> final(self).cell(i) == old(self).cell(i),
            final(self).cell(old(self).len_spec() as int) == array.cell(row as int),
    {
        let ghost old_self = *old(self);
        if array.is_null(row) {
            self.nulls.push(true);
            self.views.push(ByteView::Inline { data: Vec::new() });
            proof {
                lemma_view_push_preserves(old_self, *self);
            }
            return ;
        }
        let v = array.value(row);
        let vlen = v.len();
        if vlen <= 12 {
            let mut data: Vec<u8> = Vec::new();
            data.extend_from_slice(v.as_slice());
            self.nulls.push(false);
            self.views.push(ByteView::Inline { data });
            proof {
                lemma_view_push_preserves(old_self, *self);
                assert(self.view_bytes(old_self.views@.len() as int) =~= v@);
            }
            return ;
        }
        // spill: make sure the in-progress block can take the value
        if self.in_progress.len() > self.max_block_size
            || vlen > self.max_block_size - self.in_progress.len() {
            let flushed = core::mem::replace(&mut self.in_progress, Vec::new());
            let ghost mid = *self;
            self.completed.push(flushed);
            proof {
                // views that pointed into the in-progress block now point
                // at its place at the end of the completed chain
                assert forall|i: int| 0 <= i < self.views@.len() implies self.view_ok(i)
                    && self.view_bytes(i) == old_self.view_bytes(i) by {
                    assert(old_self.view_ok(i));
                    match self.views@[i] {
                        ByteView::Inline { data } => {},
                        ByteView::Spilled { buffer_index, offset, length, prefix } => {
                            if buffer_index < old_self.completed@.len() {
                                assert(self.completed@[buffer_index as int]
                                    == old_self.completed@[buffer_index as int]);
                            } else {
                                assert(buffer_index == old_self.completed@.len());
                                assert(self.completed@[buffer_index as int]
                                    == old_self.in_progress);
                            }
                            assert(self.view_bytes(i) =~= old_self.view_bytes(i));
                        },
                    }
                }
                assert(self.wf()) by {
                    assert forall|i: int| 0 <= i < self.views@.len() implies self.view_ok(
                        i,
                    ) by {
                        assert(self.view_bytes(i) == old_self.view_bytes(i));
                    }
                    assert forall|a: int, b: int|
                        0 <= a < b < self.views@.len() && (
                    #[trigger] self.spilled_block(a)) is Some && (
                    #[trigger] self.spilled_block(b)) is Some implies self.spilled_block(
                        a,
                    )->Some_0 <= self.spilled_block(b)->Some_0 by {
                        assert(self.spilled_block(a) == old_self.spilled_block(a));
                        assert(self.spilled_block(b) == old_self.spilled_block(b));
                    }
                }
            }
        }
        let ghost pre = *self;
        let bi = self.completed.len();
        let off = self.in_progress.len();
        let mut prefix: Vec<u8> = Vec::new();
        prefix.push(v[0]);
        prefix.push(v[1]);
        prefix.push(v[2]);
        prefix.push(v[3]);
        self.in_progress.extend_from_slice(v.as_slice());
        self.nulls.push(false);
        self.views.push(
            ByteView::Spilled { buffer_index: bi, offset: off, length: vlen, prefix },
        );
        proof {
            assert(pre.wf());
            let new_i = pre.views@.len() as int;
            // the spilled bytes are exactly the appended value
            assert(self.view_bytes(new_i) =~= v@);
            assert(self.view_bytes(new_i).take(4) =~= prefix@);
            // earlier views are untouched: completed blocks are unchanged
            // and the in-progress block only grew
            assert forall|i: int| 0 <= i < new_i implies self.view_ok(i) && self.view_bytes(i)
                == pre.view_bytes(i) by {
                assert(pre.view_ok(i));
                match self.views@[i] {
                    ByteView::Inline { data } => {},
                    ByteView::Spilled { buffer_index, offset, length, prefix: p2 } => {
                        if buffer_index < pre.completed@.len() {
                        } else {
                            assert(self.in_progress@.subrange(offset as int, offset + length)
                                =~= pre.in_progress@.subrange(offset as int, offset + length));
                        }
                        assert(self.view_bytes(i) =~= pre.view_bytes(i));
                    },
                }
            }
            assert forall|i: int| 0 <= i < new_i implies pre.view_bytes(i)
                == old_self.view_bytes(i) && (#[trigger] pre.views@[i]) == old_self.views@[
                i] by {}
            // block order: the new view points at the latest block
            assert forall|a: int, b: int|
                0 <= a < b < self.views@.len() && (#[trigger] self.spilled_block(a)) is Some
                    && (#[trigger] self.spilled_block(b)) is Some implies self.spilled_block(
                a,
            )->Some_0 <= self.spilled_block(b)->Some_0 by {
                if b == new_i {
                    assert(pre.view_ok(a));
                } else {
                    assert(pre.spilled_block(a) == self.spilled_block(a));
                    assert(pre.spilled_block(b) == self.spilled_block(b));
                }
            }
        }
    }

    /// Whether the stored row equals the incoming row, two nulls counting
    /// as equal. Lengths are compared first; an inlined value compares
    /// inline; a spilled value compares its four-byte prefix before the
    /// full bytes are followed.
    pub fn equal_to(&self, lhs_row: usize, array: &BytesColumn, rhs_row: usize) -> (r: bool)
        requires
            self.wf(),
            array.wf(),
            lhs_row < self.len_spec(),
            rhs_row < array.len_spec(),
        ensures
            r == cell_eq(self.cell(lhs_row as int), array.cell(rhs_row as int)),
    {
        let exist_null = self.nulls[lhs_row];
        let input_null = array.is_null(rhs_row);
        match nulls_equal_to(exist_null, input_null) {
            Some(result) => {
                return result;
            },
            None => {},
        }
        proof {
            assert(self.view_ok(lhs_row as int));
        }
        let input = array.value(rhs_row);
        match &self.views[lhs_row] {
            ByteView::Inline { data } => bytes_eq(data.as_slice(), input.as_slice()),
            ByteView::Spilled { buffer_index: _, offset: _, length, prefix } => {
                if *length != input.len() {
                    proof {
                        assert(self.view_bytes(lhs_row as int).len() != input@.len());
                    }
                    return false;
                }
                // compare the inline prefix before following the spill
                let p0 = prefix[0];
                let p1 = prefix[1];
                let p2 = prefix[2];
                let p3 = prefix[3];
                if p0 != input[0] || p1 != input[1] || p2 != input[2] || p3 != input[3] {
                    proof {
                        let vb = self.view_bytes(lhs_row as int);
                        assert(prefix@[0] == vb.take(4)[0]);
                        assert(prefix@[1] == vb.take(4)[1]);
                        assert(prefix@[2] == vb.take(4)[2]);
                        assert(prefix@[3] == vb.take(4)[3]);
                        assert(vb != input@) by {
                            if vb == input@ {
                                assert(vb[0] == input@[0]);
                                assert(vb[1] == input@[1]);
                                assert(vb[2] == input@[2]);
                                assert(vb[3] == input@[3]);
                            }
                        }
                    }
                    return false;
                }
                let mine = self.value(lhs_row);
                bytes_eq(mine.as_slice(), input.as_slice())
            },
        }
    }

    /// All stored values, as a typed column; consumes the builder.
    pub fn build(self) -> (r: Column)
        requires
            self.wf(),
        ensures
            r.wf(),
            r is Bytes,
            r.len_spec() == self.len_spec(),
            forall|i: int| 0 <= i < self.len_spec() ==> r.cell(i) == self.cell(i),
    {
        let n = self.nulls.len();
        let mut values: Vec<Vec<u8>> = Vec::new();
        let mut valid: Vec<bool> = Vec::new();
        let mut i: usize = 0;
        while i < n
            invariant
                0 <= i <= n,
                self.wf(),
                n == self.len_spec(),
                values@.len() == i,
                valid@.len() == i,
                forall|j: int|
                    0 <= j < i ==> (if #[trigger] valid@[j] {
                        Cell::Bytes(values@[j]@)
                    } else {
                        Cell::Null
                    }) == self.cell(j),
            decreases n - i,
        {
            let ghost ov = values@;
            let ghost od = valid@;
            let v = self.value(i);
            let is_null = self.nulls[i];
            values.push(v);
            valid.push(!is_null);
            i += 1;
            proof {
                assert forall|j: int|
                    0 <= j < i implies (if #[trigger] valid@[j] {
                    Cell::Bytes(values@[j]@)
                } else {
                    Cell::Null
                }) == self.cell(j) by {
                    if j < i - 1 {
                        assert(values@[j] == ov[j]);
                        assert(valid@[j] == od[j]);
                        assert((if od[j] {
                            Cell::Bytes(ov[j]@)
                        } else {
                            Cell::Null
                        }) == self.cell(j));
                    }
                }
            }
        }
        Column::Bytes(BytesColumn { values, valid })
    }
}

/// Pushing a view leaves every earlier view's bytes in place.
proof fn lemma_view_push_preserves(
    pre: ByteGroupValueViewBuilder,
    post: ByteGroupValueViewBuilder,
)
    requires
        pre.wf(),
        post.views@.len() == pre.views@.len() + 1,
        post.nulls@.len() == pre.nulls@.len() + 1,
        forall|i: int| 0 <= i < pre.views@.len() ==> #[trigger] post.views@[i] == pre.views@[i],
        forall|i: int| 0 <= i < pre.nulls@.len() ==> #[trigger] post.nulls@[i] == pre.nulls@[i],
        post.completed@ == pre.completed@,
        post.in_progress@ == pre.in_progress@,
        post.views@.last() matches ByteView::Inline { data } && data@.len() <= 12,
    ensures
        forall|i: int| 0 <= i < pre.views@.len() ==> #[trigger] post.view_bytes(i)
            == pre.view_bytes(i),
        forall|i: int| 0 <= i < pre.views@.len() ==> #[trigger] post.cell(i) == pre.cell(i),
        post.wf(),
{
    assert forall|i: int|
        0 <= i < pre.views@.len() implies post.view_ok(i) && #[trigger] post.view_bytes(i)
            == pre.view_bytes(i) && post.cell(i) == pre.cell(i) by {
        assert(pre.view_ok(i));
        match post.views@[i] {
            ByteView::Inline { data } => {
                assert(post.view_bytes(i) =~= pre.view_bytes(i));
            },
            ByteView::Spilled { buffer_index, offset, length, prefix } => {
                if buffer_index < post.completed@.len() {
                    assert(post.completed@[buffer_index as int] == pre.completed@[
                        buffer_index as int]);
                }
                assert(post.view_bytes(i) =~= pre.view_bytes(i));
            },
        }
    }
    assert(post.view_ok(post.views@.len() - 1));
    assert forall|i: int| 0 <= i < post.views@.len() implies post.view_ok(i) by {
        if i < pre.views@.len() {
            assert(post.view_bytes(i) == pre.view_bytes(i));
        }
    }
    assert forall|a: int, b: int|
        0 <= a < b < post.views@.len() && (#[trigger] post.spilled_block(a)) is Some && (
    #[trigger] post.spilled_block(b)) is Some implies post.spilled_block(a)->Some_0
        <= post.spilled_block(b)->Some_0 by {
        if b < pre.views@.len() {
            assert(pre.spilled_block(a) == post.spilled_block(a));
            assert(pre.spilled_block(b) == post.spilled_block(b));
        }
    }
}

impl ByteGroupValueViewBuilder {
    /// The first `n` stored values as a typed column; the builder keeps
    /// the rest. Spill blocks that only the emitted prefix referenced are
    /// dropped, and every surviving non-inlined view's buffer index is
    /// shifted down by the number of blocks that left.
    pub fn take_n(&mut self, n: usize) -> (r: Column)
        requires
            old(self).wf(),
            n <= old(self).len_spec(),
        ensures
            final(self).wf(),
            final(self).len_spec() == old(self).len_spec() - n,
            final(self).output_type == old(self).output_type,
            final(self).max_block_size == old(self).max_block_size,
            forall|i: int|
                0 <= i < final(self).len_spec() ==> final(self).cell(i) == old(self).cell(n + i),
            r.wf(),
            r is Bytes,
            r.len_spec() == n,
            forall|i: int| 0 <= i < n ==> r.cell(i) == old(self).cell(i),
    {
        let total = self.views.len();
        // the emitted prefix, copied out value by value
        let mut first_values: Vec<Vec<u8>> = Vec::new();
        let mut first_valid: Vec<bool> = Vec::new();
        let mut i: usize = 0;
        while i < n
            invariant
                0 <= i <= n,
                *self == *old(self),
                self.wf(),
                total == self.len_spec(),
                n <= total,
                first_values@.len() == i,
                first_valid@.len() == i,
                forall|j: int|
                    0 <= j < i ==> (if #[trigger] first_valid@[j] {
                        Cell::Bytes(first_values@[j]@)
                    } else {
                        Cell::Null
                    }) == self.cell(j),
            decreases n - i,
        {
            let ghost ov = first_values@;
            let ghost od = first_valid@;
            let v = self.value(i);
            let is_null = self.nulls[i];
            first_values.push(v);
            first_valid.push(!is_null);
            i += 1;
            proof {
                assert forall|j: int|
                    0 <= j < i implies (if #[trigger] first_valid@[j] {
                    Cell::Bytes(first_values@[j]@)
                } else {
                    Cell::Null
                }) == self.cell(j) by {
                    if j < i - 1 {
                        assert(first_values@[j] == ov[j]);
                        assert(first_valid@[j] == od[j]);
                        assert((if od[j] {
                            Cell::Bytes(ov[j]@)
                        } else {
                            Cell::Null
                        }) == self.cell(j));
                    }
                }
            }
        }
        // the highest spill block the emitted prefix referenced: blocks
        // before it carry no surviving value
        let mut drop_blocks: usize = 0;
        let mut w: usize = 0;
        while w < n
            invariant
                0 <= w <= n,
                *self == *old(self),
                self.wf(),
                total == self.len_spec(),
                n <= total,
                drop_blocks <= self.completed@.len(),
                forall|j: int|
                    0 <= j < w && (#[trigger] self.spilled_block(j)) is Some
                        ==> self.spilled_block(j)->Some_0 <= drop_blocks,
                drop_blocks == 0 || exists|j: int|
                    0 <= j < w && (#[trigger] self.spilled_block(j)) is Some
                        && self.spilled_block(j)->Some_0 == drop_blocks,
            decreases n - w,
        {
            match &self.views[w] {
                ByteView::Spilled { buffer_index, .. } => {
                    proof {
                        assert(self.view_ok(w as int));
                    }
                    if *buffer_index > drop_blocks {
                        drop_blocks = *buffer_index;
                    }
                    proof {
                        assert forall|j: int|
                            0 <= j < w + 1 && (#[trigger] self.spilled_block(j)) is Some implies
                            self.spilled_block(j)->Some_0 <= drop_blocks by {
                            if j < w {
                                assert(self.spilled_block(j)->Some_0 <= self.spilled_block(
                                    w as int,
                                )->Some_0);
                            }
                        }
                    }
                },
                ByteView::Inline { .. } => {},
            }
            w += 1;
        }
        // keep the blocks from `drop_blocks` on, and rebuild the retained
        // views with their buffer indices shifted down
        let ghost pre = *old(self);
        let mut kept: Vec<Vec<u8>> = Vec::new();
        let mut b: usize = drop_blocks;
        let nb = self.completed.len();
        while b < nb
            invariant
                drop_blocks <= b <= nb,
                *self == *old(self),
                nb == self.completed@.len(),
                kept@.len() == b - drop_blocks,
                forall|j: int|
                    0 <= j < b - drop_blocks ==> (#[trigger] kept@[j])@ == self.completed@[
                        drop_blocks + j]@,
            decreases nb - b,
        {
            let ghost ok = kept@;
            let mut copy: Vec<u8> = Vec::new();
            copy.extend_from_slice(self.completed[b].as_slice());
            kept.push(copy);
            b += 1;
            proof {
                assert forall|j: int|
                    0 <= j < b - drop_blocks implies (#[trigger] kept@[j])@ == self.completed@[
                    drop_blocks + j]@ by {
                    if j < b - 1 - drop_blocks {
                        assert(kept@[j] == ok[j]);
                    }
                }
            }
        }
        let mut rest_views: Vec<ByteView> = Vec::new();
        let mut rest_nulls: Vec<bool> = Vec::new();
        let mut q: usize = n;
        while q < total
            invariant
                n <= q <= total,
                *self == *old(self),
                self.wf(),
                total == self.len_spec(),
                nb == self.completed@.len(),
                drop_blocks <= nb,
                forall|j: int|
                    0 <= j < n && (#[trigger] self.spilled_block(j)) is Some
                        ==> self.spilled_block(j)->Some_0 <= drop_blocks,
                drop_blocks == 0 || exists|j: int|
                    0 <= j < n && (#[trigger] self.spilled_block(j)) is Some
                        && self.spilled_block(j)->Some_0 == drop_blocks,
                rest_views@.len() == q - n,
                rest_nulls@.len() == q - n,
                forall|j: int|
                    0 <= j < q - n ==> #[trigger] rest_nulls@[j] == self.nulls@[n + j],
                forall|j: int|
                    0 <= j < q - n ==> ((#[trigger] rest_views@[j]) matches ByteView::Inline {
                        data,
                    } ==> self.views@[n + j] matches ByteView::Inline { data: d2 } && data@
                        == d2@),
                forall|j: int|
                    0 <= j < q - n ==> ((#[trigger] rest_views@[j]) matches ByteView::Spilled {
                        buffer_index,
                        offset,
                        length,
                        prefix,
                    } ==> self.views@[n + j] matches ByteView::Spilled {
                        buffer_index: b2,
                        offset: o2,
                        length: l2,
                        prefix: p2,
                    } && buffer_index == b2 - drop_blocks && offset == o2 && length == l2
                        && prefix@ == p2@ && b2 >= drop_blocks),
                forall|j: int|
                    0 <= j < q - n ==> ((#[trigger] rest_views@[j]) is Inline <==> self.views@[
                        n + j] is Inline),
            decreases total - q,
        {
            let ghost orv = rest_views@;
            let ghost orn = rest_nulls@;
            proof {
                assert(self.view_ok(q as int));
                if self.spilled_block(q as int) is Some {
                    // every spilled survivor references at least the
                    // boundary block: block order is nondecreasing
                    if n > 0 {
                        assert forall|j: int|
                            0 <= j < n && (#[trigger] self.spilled_block(j)) is Some implies
                            self.spilled_block(j)->Some_0 <= self.spilled_block(
                            q as int,
                        )->Some_0 by {}
                    }
                }
            }
            match &self.views[q] {
                ByteView::Inline { data } => {
                    let mut copy: Vec<u8> = Vec::new();
                    copy.extend_from_slice(data.as_slice());
                    rest_views.push(ByteView::Inline { data: copy });
                },
                ByteView::Spilled { buffer_index, offset, length, prefix } => {
                    let bi = *buffer_index;
                    proof {
                        if bi < drop_blocks {
                            // a surviving spilled view cannot point below
                            // the boundary: some emitted spilled view set
                            // the boundary, and block order is
                            // nondecreasing
                            let wit = choose|wit: int|
                                0 <= wit < n && (#[trigger] self.spilled_block(wit)) is Some
                                    && self.spilled_block(wit)->Some_0 == drop_blocks;
                            assert(self.spilled_block(wit)->Some_0 <= self.spilled_block(
                                q as int,
                            )->Some_0);
                            assert(false);
                        }
                    }
                    let mut pcopy: Vec<u8> = Vec::new();
                    pcopy.extend_from_slice(prefix.as_slice());
                    rest_views.push(
                        ByteView::Spilled {
                            buffer_index: bi - drop_blocks,
                            offset: *offset,
                            length: *length,
                            prefix: pcopy,
                        },
                    );
                },
            }
            rest_nulls.push(self.nulls[q]);
            q += 1;
            proof {
                assert forall|j: int|
                    0 <= j < q - n implies #[trigger] rest_nulls@[j] == self.nulls@[n + j] by {
                    if j < q - 1 - n {
                        assert(rest_nulls@[j] == orn[j]);
                    }
                }
            }
        }
        let ghost kept_view = kept@;
        let ghost rv = rest_views@;
        let ghost rn = rest_nulls@;
        self.views = rest_views;
        self.nulls = rest_nulls;
        self.completed = kept;
        proof {
            assert forall|i2: int| 0 <= i2 < self.views@.len() implies self.view_ok(i2)
                && self.view_bytes(i2) == pre.view_bytes(n + i2) by {
                assert(pre.view_ok(n + i2));
                match self.views@[i2] {
                    ByteView::Inline { data } => {
                        assert(self.view_bytes(i2) =~= pre.view_bytes(n + i2));
                    },
                    ByteView::Spilled { buffer_index, offset, length, prefix } => {
                        let ob = buffer_index + drop_blocks;
                        if ob < pre.completed@.len() {
                            assert(self.completed@[buffer_index as int]@ == pre.completed@[
                                ob as int]@);
                        } else {
                            assert(buffer_index == self.completed@.len());
                        }
                        assert(self.view_bytes(i2) =~= pre.view_bytes(n + i2));
                        assert(prefix@ =~= self.view_bytes(i2).take(4));
                    },
                }
            }
            assert forall|a: int, b2: int|
                0 <= a < b2 < self.views@.len() && (#[trigger] self.spilled_block(a)) is Some
                    && (#[trigger] self.spilled_block(b2)) is Some implies self.spilled_block(
                a,
            )->Some_0 <= self.spilled_block(b2)->Some_0 by {
                assert(pre.spilled_block(n + a) is Some);
                assert(pre.spilled_block(n + b2) is Some);
            }
            assert forall|i2: int| 0 <= i2 < self.views@.len() implies #[trigger] self.cell(i2)
                == pre.cell(n + i2) by {}
        }
        Column::Bytes(BytesColumn { values: first_values, valid: first_valid })
    }
}

} // verus!
