//! The columnar data model: typed columns with validity, record batches,
//! and the slicing and gathering operations the operators invoke.
//!
//! A column is a typed contiguous store plus per-row validity; a record
//! batch is a list of equal-length columns. Batches are immutable after
//! construction and sub-ranges are obtained by slicing.

use vstd::prelude::*;

use crate::error::ExecError;

verus! {

/// The data types the operators handle: fixed-width 64-bit integers,
/// byte strings, and view-encoded byte strings (same logical content as
/// `Bytes`, but group-value builders store them in view form).
#[derive(Clone, Copy, PartialEq, Eq, Structural, Debug)]
pub enum DataType {
    Int64,
    Bytes,
    BytesView,
    Bool,
}

/// Per-field sort options: direction and null position.
#[derive(Clone, Copy, PartialEq, Eq, Structural, Debug)]
pub struct SortOptions {
    pub descending: bool,
    pub nulls_first: bool,
}

impl Default for SortOptions {
    /// Ascending with nulls first.
    fn default() -> (r: Self)
        ensures
            r == (SortOptions { descending: false, nulls_first: true }),
    {
        SortOptions { descending: false, nulls_first: true }
    }
}

impl SortOptions {
    /// Both flags flipped: ascending becomes descending and nulls move
    /// to the other end.
    pub fn reversed(&self) -> (r: Self)
        ensures
            r == (SortOptions {
                descending: !self.descending,
                nulls_first: !self.nulls_first,
            }),
    {
        SortOptions { descending: !self.descending, nulls_first: !self.nulls_first }
    }
}

/// A sort field: the data type of the column and its sort options.
#[derive(Clone, Copy, PartialEq, Eq, Structural, Debug)]
pub struct SortField {
    pub data_type: DataType,
    pub options: SortOptions,
}

/// Spec-level value of one row of one column.
pub ghost enum Cell {
    Null,
    Int(i64),
    Bytes(Seq<u8>),
    Bool(bool),
}

/// A column of 64-bit integers with a validity mask.
pub struct PrimitiveColumn {
    pub values: Vec<i64>,
    pub valid: Vec<bool>,
}

/// A column of byte strings with a validity mask.
pub struct BytesColumn {
    pub values: Vec<Vec<u8>>,
    pub valid: Vec<bool>,
}

/// A column of booleans with a validity mask; filter expressions evaluate
/// to columns of this shape.
pub struct BoolColumn {
    pub values: Vec<bool>,
    pub valid: Vec<bool>,
}

/// A typed column.
pub enum Column {
    Int64(PrimitiveColumn),
    Bytes(BytesColumn),
    Bool(BoolColumn),
}

impl PrimitiveColumn {
    pub open spec fn wf(&self) -> bool {
        self.values@.len() == self.valid@.len()
    }

    pub open spec fn len_spec(&self) -> nat {
        self.values@.len()
    }

    pub open spec fn cell(&self, i: int) -> Cell {
        if self.valid@[i] {
            Cell::Int(self.values@[i])
        } else {
            Cell::Null
        }
    }

    pub fn new_empty() -> (r: Self)
        ensures
            r.wf(),
            r.len_spec() == 0,
    {
        PrimitiveColumn { values: Vec::new(), valid: Vec::new() }
    }

    /// Build a column from one optional value per row.
    pub fn from_options(rows: Vec<Option<i64>>) -> (r: Self)
        ensures
            r.wf(),
            r.len_spec() == rows@.len(),
            forall|i: int|
                0 <= i < rows@.len() ==> r.cell(i) == (match rows@[i] {
                    Some(v) => Cell::Int(v),
                    None => Cell::Null,
                }),
    {
        let mut values: Vec<i64> = Vec::new();
        let mut valid: Vec<bool> = Vec::new();
        let n = rows.len();
        let mut i: usize = 0;
        while i < n
            invariant
                0 <= i <= n,
                n == rows@.len(),
                values@.len() == i,
                valid@.len() == i,
                forall|j: int|
                    0 <= j < i ==> (match #[trigger] rows@[j] {
                        Some(v) => valid@[j] && values@[j] == v,
                        None => !valid@[j],
                    }),
            decreases n - i,
        {
            match rows[i] {
                Some(v) => {
                    values.push(v);
                    valid.push(true);
                },
                None => {
                    values.push(0);
                    valid.push(false);
                },
            }
            i += 1;
        }
        PrimitiveColumn { values, valid }
    }

    pub fn len(&self) -> (r: usize)
        requires
            self.wf(),
        ensures
            r == self.len_spec(),
    {
        self.values.len()
    }

    pub fn is_null(&self, i: usize) -> (r: bool)
        requires
            self.wf(),
            i < self.len_spec(),
        ensures
            r == (self.cell(i as int) is Null),
    {
        !self.valid[i]
    }

    pub fn value(&self, i: usize) -> (r: i64)
        requires
            self.wf(),
            i < self.len_spec(),
            self.cell(i as int) is Int,
        ensures
            self.cell(i as int) == Cell::Int(r),
    {
        self.values[i]
    }
}

impl BytesColumn {
    pub open spec fn wf(&self) -> bool {
        self.values@.len() == self.valid@.len()
    }

    pub open spec fn len_spec(&self) -> nat {
        self.values@.len()
    }

    pub open spec fn cell(&self, i: int) -> Cell {
        if self.valid@[i] {
            Cell::Bytes(self.values@[i]@)
        } else {
            Cell::Null
        }
    }

    pub fn new_empty() -> (r: Self)
        ensures
            r.wf(),
            r.len_spec() == 0,
    {
        BytesColumn { values: Vec::new(), valid: Vec::new() }
    }

    /// Build a column from one optional byte string per row.
    pub fn from_options(rows: Vec<Option<Vec<u8>>>) -> (r: Self)
        ensures
            r.wf(),
            r.len_spec() == rows@.len(),
            forall|i: int|
                0 <= i < rows@.len() ==> r.cell(i) == (match rows@[i] {
                    Some(v) => Cell::Bytes(v@),
                    None => Cell::Null,
                }),
    {
        let mut values: Vec<Vec<u8>> = Vec::new();
        let mut valid: Vec<bool> = Vec::new();
        let n = rows.len();
        let mut i: usize = 0;
        while i < n
            invariant
                0 <= i <= n,
                n == rows@.len(),
                values@.len() == i,
                valid@.len() == i,
                forall|j: int|
                    0 <= j < i ==> (match #[trigger] rows@[j] {
                        Some(v) => valid@[j] && values@[j]@ == v@,
                        None => !valid@[j],
                    }),
            decreases n - i,
        {
            let row = &rows[i];
            match row {
                Some(v) => {
                    let mut copy: Vec<u8> = Vec::new();
                    copy.extend_from_slice(v.as_slice());
                    values.push(copy);
                    valid.push(true);
                },
                None => {
                    values.push(Vec::new());
                    valid.push(false);
                },
            }
            i += 1;
        }
        BytesColumn { values, valid }
    }

    pub fn len(&self) -> (r: usize)
        requires
            self.wf(),
        ensures
            r == self.len_spec(),
    {
        self.values.len()
    }

    pub fn is_null(&self, i: usize) -> (r: bool)
        requires
            self.wf(),
            i < self.len_spec(),
        ensures
            r == (self.cell(i as int) is Null),
    {
        !self.valid[i]
    }

    pub fn value(&self, i: usize) -> (r: &Vec<u8>)
        requires
            self.wf(),
            i < self.len_spec(),
            self.cell(i as int) is Bytes,
        ensures
            self.cell(i as int) == Cell::Bytes(r@),
    {
        &self.values[i]
    }
}

impl BoolColumn {
    pub open spec fn wf(&self) -> bool {
        self.values@.len() == self.valid@.len()
    }

    pub open spec fn len_spec(&self) -> nat {
        self.values@.len()
    }

    pub open spec fn cell(&self, i: int) -> Cell {
        if self.valid@[i] {
            Cell::Bool(self.values@[i])
        } else {
            Cell::Null
        }
    }

    pub fn new_empty() -> (r: Self)
        ensures
            r.wf(),
            r.len_spec() == 0,
    {
        BoolColumn { values: Vec::new(), valid: Vec::new() }
    }

    /// Build a column from one optional truth value per row.
    pub fn from_options(rows: Vec<Option<bool>>) -> (r: Self)
        ensures
            r.wf(),
            r.len_spec() == rows@.len(),
            forall|i: int|
                0 <= i < rows@.len() ==> r.cell(i) == (match rows@[i] {
                    Some(v) => Cell::Bool(v),
                    None => Cell::Null,
                }),
    {
        let mut values: Vec<bool> = Vec::new();
        let mut valid: Vec<bool> = Vec::new();
        let n = rows.len();
        let mut i: usize = 0;
        while i < n
            invariant
                0 <= i <= n,
                n == rows@.len(),
                values@.len() == i,
                valid@.len() == i,
                forall|j: int|
                    0 <= j < i ==> (match #[trigger] rows@[j] {
                        Some(v) => valid@[j] && values@[j] == v,
                        None => !valid@[j],
                    }),
            decreases n - i,
        {
            match rows[i] {
                Some(v) => {
                    values.push(v);
                    valid.push(true);
                },
                None => {
                    values.push(false);
                    valid.push(false);
                },
            }
            i += 1;
        }
        BoolColumn { values, valid }
    }

    pub fn len(&self) -> (r: usize)
        requires
            self.wf(),
        ensures
            r == self.len_spec(),
    {
        self.values.len()
    }

    pub fn is_null(&self, i: usize) -> (r: bool)
        requires
            self.wf(),
            i < self.len_spec(),
        ensures
            r == (self.cell(i as int) is Null),
    {
        !self.valid[i]
    }

    pub fn value(&self, i: usize) -> (r: bool)
        requires
            self.wf(),
            i < self.len_spec(),
            self.cell(i as int) is Bool,
        ensures
            self.cell(i as int) == Cell::Bool(r),
    {
        self.values[i]
    }

    /// A copy of a row range.
    pub fn slice_range(&self, offset: usize, len: usize) -> (r: Self)
        requires
            self.wf(),
            offset + len <= self.len_spec(),
        ensures
            r.wf(),
            r.len_spec() == len,
            forall|i: int| 0 <= i < len ==> r.cell(i) == self.cell(offset + i),
    {
        let total = self.len();
        let mut values: Vec<bool> = Vec::new();
        let mut valid: Vec<bool> = Vec::new();
        let mut i: usize = 0;
        while i < len
            invariant
                0 <= i <= len,
                self.wf(),
                offset + len <= self.len_spec(),
                total == self.len_spec(),
                values@.len() == i,
                valid@.len() == i,
                forall|j: int| 0 <= j < i ==> values@[j] == self.values@[offset + j],
                forall|j: int| 0 <= j < i ==> valid@[j] == self.valid@[offset + j],
            decreases len - i,
        {
            values.push(self.values[offset + i]);
            valid.push(self.valid[offset + i]);
            i += 1;
        }
        let r = BoolColumn { values, valid };
        proof {
            assert forall|j: int| 0 <= j < len implies r.cell(j) == self.cell(offset + j) by {}
        }
        r
    }
}

impl Column {
    pub open spec fn wf(&self) -> bool {
        match self {
            Column::Int64(c) => c.wf(),
            Column::Bytes(c) => c.wf(),
            Column::Bool(c) => c.wf(),
        }
    }

    pub open spec fn len_spec(&self) -> nat {
        match self {
            Column::Int64(c) => c.len_spec(),
            Column::Bytes(c) => c.len_spec(),
            Column::Bool(c) => c.len_spec(),
        }
    }

    pub open spec fn cell(&self, i: int) -> Cell {
        match self {
            Column::Int64(c) => c.cell(i),
            Column::Bytes(c) => c.cell(i),
            Column::Bool(c) => c.cell(i),
        }
    }

    /// Whether the column's physical type matches a declared data type.
    /// Byte-string columns carry both plain and view-encoded data.
    pub open spec fn matches_type_spec(&self, dt: DataType) -> bool {
        match self {
            Column::Int64(_) => dt == DataType::Int64,
            Column::Bytes(_) => dt == DataType::Bytes || dt == DataType::BytesView,
            Column::Bool(_) => dt == DataType::Bool,
        }
    }

    pub fn matches_type(&self, dt: DataType) -> (r: bool)
        ensures
            r == self.matches_type_spec(dt),
    {
        match self {
            Column::Int64(_) => dt == DataType::Int64,
            Column::Bytes(_) => dt == DataType::Bytes || dt == DataType::BytesView,
            Column::Bool(_) => dt == DataType::Bool,
        }
    }

    pub fn len(&self) -> (r: usize)
        requires
            self.wf(),
        ensures
            r == self.len_spec(),
    {
        match self {
            Column::Int64(c) => c.len(),
            Column::Bytes(c) => c.len(),
            Column::Bool(c) => c.len(),
        }
    }
}

/// An ordered list of equal-length typed columns.
pub struct RecordBatch {
    pub schema: Vec<DataType>,
    pub columns: Vec<Column>,
    pub num_rows: usize,
}

impl RecordBatch {
    pub open spec fn wf(&self) -> bool {
        &&& self.columns@.len() == self.schema@.len()
        &&& forall|c: int|
            0 <= c < self.columns@.len() ==> (#[trigger] self.columns@[c]).wf()
        &&& forall|c: int|
            0 <= c < self.columns@.len() ==> (#[trigger] self.columns@[c]).len_spec()
                == self.num_rows
        &&& forall|c: int|
            0 <= c < self.columns@.len() ==> (#[trigger] self.columns@[c]).matches_type_spec(
                self.schema@[c],
            )
    }

    /// The spec-level contents of row `i`, one cell per column.
    pub open spec fn row(&self, i: int) -> Seq<Cell> {
        Seq::new(self.columns@.len(), |c: int| self.columns@[c].cell(i))
    }

    /// All rows of the batch, in order.
    pub open spec fn rows(&self) -> Seq<Seq<Cell>> {
        Seq::new(self.num_rows as nat, |i: int| self.row(i))
    }

    /// An empty batch with the given schema.
    pub fn new_empty(schema: Vec<DataType>) -> (r: Self)
        ensures
            r.wf(),
            r.num_rows == 0,
            r.schema@ == schema@,
    {
        let mut columns: Vec<Column> = Vec::new();
        let n = schema.len();
        let mut c: usize = 0;
        while c < n
            invariant
                0 <= c <= n,
                n == schema@.len(),
                columns@.len() == c,
                forall|j: int| 0 <= j < c ==> (#[trigger] columns@[j]).wf(),
                forall|j: int| 0 <= j < c ==> (#[trigger] columns@[j]).len_spec() == 0,
                forall|j: int|
                    0 <= j < c ==> (#[trigger] columns@[j]).matches_type_spec(schema@[j]),
            decreases n - c,
        {
            match schema[c] {
                DataType::Int64 => columns.push(Column::Int64(PrimitiveColumn::new_empty())),
                DataType::Bytes => columns.push(Column::Bytes(BytesColumn::new_empty())),
                DataType::BytesView => columns.push(Column::Bytes(BytesColumn::new_empty())),
                DataType::Bool => columns.push(Column::Bool(BoolColumn::new_empty())),
            }
            c += 1;
        }
        RecordBatch { schema, columns, num_rows: 0 }
    }

    /// Construct a batch from columns, checking the well-formedness that
    /// batch construction demands: equal lengths and matching types.
    pub fn try_new(schema: Vec<DataType>, columns: Vec<Column>, num_rows: usize) -> (r: Option<
        Self,
    >)
        requires
            forall|c: int| 0 <= c < columns@.len() ==> (#[trigger] columns@[c]).wf(),
        ensures
            r is Some <==> {
                &&& columns@.len() == schema@.len()
                &&& forall|c: int|
                    0 <= c < columns@.len() ==> (#[trigger] columns@[c]).len_spec() == num_rows
                &&& forall|c: int|
                    0 <= c < columns@.len() ==> (#[trigger] columns@[c]).matches_type_spec(
                        schema@[c],
                    )
            },
            r is Some ==> {
                &&& r->Some_0.wf()
                &&& r->Some_0.schema@ == schema@
                &&& r->Some_0.columns@ == columns@
                &&& r->Some_0.num_rows == num_rows
            },
    {
        if columns.len() != schema.len() {
            return None;
        }
        let n = columns.len();
        let mut c: usize = 0;
        while c < n
            invariant
                0 <= c <= n,
                n == columns@.len(),
                n == schema@.len(),
                forall|j: int| 0 <= j < columns@.len() ==> (#[trigger] columns@[j]).wf(),
                forall|j: int| 0 <= j < c ==> (#[trigger] columns@[j]).len_spec() == num_rows,
                forall|j: int|
                    0 <= j < c ==> (#[trigger] columns@[j]).matches_type_spec(schema@[j]),
            decreases n - c,
        {
            if columns[c].len() != num_rows {
                return None;
            }
            if !columns[c].matches_type(schema[c]) {
                return None;
            }
            c += 1;
        }
        Some(RecordBatch { schema, columns, num_rows })
    }

    pub fn schema_of(&self) -> (r: &Vec<DataType>)
        ensures
            r@ == self.schema@,
    {
        &self.schema
    }
}

/// Saturating addition on byte counts.
pub open spec fn sat_add_spec(a: nat, b: nat) -> nat {
    if a + b > usize::MAX {
        usize::MAX as nat
    } else {
        a + b
    }
}

/// Saturating addition on 64-bit counters.
pub open spec fn sat_add64_spec(a: nat, b: nat) -> nat {
    if a + b > u64::MAX {
        u64::MAX as nat
    } else {
        a + b
    }
}

/// Add two byte counts, saturating at the largest representable count.
pub fn sat_add(a: usize, b: usize) -> (r: usize)
    ensures
        r as nat == sat_add_spec(a as nat, b as nat),
{
    if a > usize::MAX - b {
        usize::MAX
    } else {
        a + b
    }
}

impl PrimitiveColumn {
    /// A copy of a row range.
    pub fn slice_range(&self, offset: usize, len: usize) -> (r: Self)
        requires
            self.wf(),
            offset + len <= self.len_spec(),
        ensures
            r.wf(),
            r.len_spec() == len,
            forall|i: int| 0 <= i < len ==> r.cell(i) == self.cell(offset + i),
    {
        let total = self.len();
        let mut values: Vec<i64> = Vec::new();
        let mut valid: Vec<bool> = Vec::new();
        let mut i: usize = 0;
        while i < len
            invariant
                0 <= i <= len,
                self.wf(),
                offset + len <= self.len_spec(),
                total == self.len_spec(),
                values@.len() == i,
                valid@.len() == i,
                forall|j: int| 0 <= j < i ==> values@[j] == self.values@[offset + j],
                forall|j: int| 0 <= j < i ==> valid@[j] == self.valid@[offset + j],
            decreases len - i,
        {
            values.push(self.values[offset + i]);
            valid.push(self.valid[offset + i]);
            i += 1;
        }
        let r = PrimitiveColumn { values, valid };
        proof {
            assert forall|j: int| 0 <= j < len implies r.cell(j) == self.cell(offset + j) by {}
        }
        r
    }
}

impl BytesColumn {
    /// A copy of a row range.
    pub fn slice_range(&self, offset: usize, len: usize) -> (r: Self)
        requires
            self.wf(),
            offset + len <= self.len_spec(),
        ensures
            r.wf(),
            r.len_spec() == len,
            forall|i: int| 0 <= i < len ==> r.cell(i) == self.cell(offset + i),
    {
        let total = self.len();
        let mut values: Vec<Vec<u8>> = Vec::new();
        let mut valid: Vec<bool> = Vec::new();
        let mut i: usize = 0;
        while i < len
            invariant
                0 <= i <= len,
                self.wf(),
                offset + len <= self.len_spec(),
                total == self.len_spec(),
                values@.len() == i,
                valid@.len() == i,
                forall|j: int| 0 <= j < i ==> values@[j]@ == self.values@[offset + j]@,
                forall|j: int| 0 <= j < i ==> valid@[j] == self.valid@[offset + j],
            decreases len - i,
        {
            let mut copy: Vec<u8> = Vec::new();
            copy.extend_from_slice(self.values[offset + i].as_slice());
            values.push(copy);
            valid.push(self.valid[offset + i]);
            i += 1;
        }
        let r = BytesColumn { values, valid };
        proof {
            assert forall|j: int| 0 <= j < len implies r.cell(j) == self.cell(offset + j) by {}
        }
        r
    }
}

impl Column {
    /// A copy of this column.
    pub fn duplicate(&self) -> (r: Self)
        requires
            self.wf(),
        ensures
            r.wf(),
            r.len_spec() == self.len_spec(),
            forall|i: int| 0 <= i < self.len_spec() ==> r.cell(i) == self.cell(i),
            forall|dt: DataType| r.matches_type_spec(dt) == self.matches_type_spec(dt),
    {
        match self {
            Column::Int64(c) => Column::Int64(c.slice_range(0, c.len())),
            Column::Bytes(c) => Column::Bytes(c.slice_range(0, c.len())),
            Column::Bool(c) => Column::Bool(c.slice_range(0, c.len())),
        }
    }

    /// A copy of a row range.
    pub fn slice_range(&self, offset: usize, len: usize) -> (r: Self)
        requires
            self.wf(),
            offset + len <= self.len_spec(),
        ensures
            r.wf(),
            r.len_spec() == len,
            forall|i: int| 0 <= i < len ==> r.cell(i) == self.cell(offset + i),
            forall|dt: DataType| r.matches_type_spec(dt) == self.matches_type_spec(dt),
    {
        match self {
            Column::Int64(c) => Column::Int64(c.slice_range(offset, len)),
            Column::Bytes(c) => Column::Bytes(c.slice_range(offset, len)),
            Column::Bool(c) => Column::Bool(c.slice_range(offset, len)),
        }
    }

    /// The bytes this column holds, saturating.
    pub fn size_bytes(&self) -> (r: usize)
        ensures
            r as nat == col_size_spec(*self),
    {
        match self {
            Column::Int64(c) => sat_add(sat_add(c.values.len(), c.values.len()), c.valid.len()),
            Column::Bool(c) => sat_add(c.values.len(), c.valid.len()),
            Column::Bytes(c) => {
                let mut total: usize = c.valid.len();
                let n = c.values.len();
                let mut i: usize = 0;
                while i < n
                    invariant
                        0 <= i <= n,
                        n == c.values@.len(),
                        bytes_size_from(c.values@, total as nat, i as int) == bytes_size_from(
                            c.values@,
                            c.valid@.len(),
                            0,
                        ),
                    decreases n - i,
                {
                    total = sat_add(total, c.values[i].len());
                    i += 1;
                }
                total
            },
        }
    }
}

/// The bytes of the byte-string values from index `i` on, added to `acc`
/// one value at a time, saturating.
pub open spec fn bytes_size_from(vals: Seq<Vec<u8>>, acc: nat, i: int) -> nat
    decreases vals.len() - i,
{
    if i < 0 || i >= vals.len() {
        acc
    } else {
        bytes_size_from(vals, sat_add_spec(acc, vals[i]@.len()), i + 1)
    }
}

/// The bytes a column holds: for fixed-width values the value and
/// validity buffers, for byte strings the value bytes plus the validity
/// buffer — added up with saturation, mirroring the accounting the
/// operators report to the memory pool.
pub open spec fn col_size_spec(col: Column) -> nat {
    match col {
        Column::Int64(c) => sat_add_spec(
            sat_add_spec(c.values@.len(), c.values@.len()),
            c.valid@.len(),
        ),
        Column::Bool(c) => sat_add_spec(c.values@.len(), c.valid@.len()),
        Column::Bytes(c) => bytes_size_from(c.values@, c.valid@.len(), 0),
    }
}

/// The bytes of the columns from index `i` on, added to `acc`, saturating.
pub open spec fn cols_size_from(cols: Seq<Column>, acc: nat, i: int) -> nat
    decreases cols.len() - i,
{
    if i < 0 || i >= cols.len() {
        acc
    } else {
        cols_size_from(cols, sat_add_spec(acc, col_size_spec(cols[i])), i + 1)
    }
}

/// The bytes a batch holds: its columns' bytes, added up with saturation.
pub open spec fn batch_size_spec(b: RecordBatch) -> nat {
    cols_size_from(b.columns@, 0, 0)
}

impl RecordBatch {
    /// A batch holding a copy of the row range `[offset, offset + len)`.
    pub fn slice(&self, offset: usize, len: usize) -> (r: Self)
        requires
            self.wf(),
            offset + len <= self.num_rows,
        ensures
            r.wf(),
            r.schema@ == self.schema@,
            r.num_rows == len,
            forall|i: int| 0 <= i < len ==> r.row(i) == self.row(offset + i),
    {
        let mut columns: Vec<Column> = Vec::new();
        let n = self.columns.len();
        let mut c: usize = 0;
        while c < n
            invariant
                0 <= c <= n,
                self.wf(),
                offset + len <= self.num_rows,
                n == self.columns@.len(),
                columns@.len() == c,
                forall|j: int| 0 <= j < c ==> (#[trigger] columns@[j]).wf(),
                forall|j: int| 0 <= j < c ==> (#[trigger] columns@[j]).len_spec() == len,
                forall|j: int|
                    0 <= j < c ==> (#[trigger] columns@[j]).matches_type_spec(self.schema@[j]),
                forall|j: int, i: int|
                    0 <= j < c && 0 <= i < len ==> (#[trigger] columns@[j].cell(i))
                        == self.columns@[j].cell(offset + i),
            decreases n - c,
        {
            columns.push(self.columns[c].slice_range(offset, len));
            c += 1;
        }
        let mut schema: Vec<DataType> = Vec::new();
        let mut s: usize = 0;
        while s < n
            invariant
                0 <= s <= n,
                n == self.schema@.len(),
                schema@.len() == s,
                forall|j: int| 0 <= j < s ==> schema@[j] == self.schema@[j],
            decreases n - s,
        {
            schema.push(self.schema[s]);
            s += 1;
        }
        proof {
            assert(schema@ =~= self.schema@);
        }
        let r = RecordBatch { schema, columns, num_rows: len };
        proof {
            assert forall|i: int| 0 <= i < len implies r.row(i) == self.row(offset + i) by {
                assert(r.row(i) =~= self.row(offset + i));
            }
        }
        r
    }

    /// The bytes this batch holds, saturating.
    pub fn size_bytes(&self) -> (r: usize)
        ensures
            r as nat == batch_size_spec(*self),
    {
        let mut total: usize = 0;
        let n = self.columns.len();
        let mut c: usize = 0;
        while c < n
            invariant
                0 <= c <= n,
                n == self.columns@.len(),
                cols_size_from(self.columns@, total as nat, c as int) == cols_size_from(
                    self.columns@,
                    0,
                    0,
                ),
            decreases n - c,
        {
            total = sat_add(total, self.columns[c].size_bytes());
            c += 1;
        }
        total
    }
}

/// An operator's claim on the memory pool: a capacity granted by the pool
/// and the operator's current footprint. Growing past the capacity fails.
pub struct MemoryReservation {
    pub capacity: usize,
    pub size: usize,
}

impl MemoryReservation {
    pub open spec fn wf(&self) -> bool {
        self.size <= self.capacity
    }

    /// A fresh reservation against a pool that allows `capacity` bytes.
    pub fn register(capacity: usize) -> (r: Self)
        ensures
            r.wf(),
            r.capacity == capacity,
            r.size == 0,
    {
        MemoryReservation { capacity, size: 0 }
    }

    /// Set the reservation to a new size: succeeds exactly when the pool's
    /// capacity covers it; on failure the reservation keeps its old size.
    pub fn try_resize(&mut self, new_size: usize) -> (r: Result<(), ExecError>)
        requires
            old(self).wf(),
        ensures
            final(self).wf(),
            final(self).capacity == old(self).capacity,
            r is Ok <==> new_size <= old(self).capacity,
            r is Ok ==> final(self).size == new_size,
            r is Err ==> r == Result::<(), ExecError>::Err(ExecError::ResourcesExhausted)
                && final(self).size == old(self).size,
    {
        if new_size <= self.capacity {
            self.size = new_size;
            Ok(())
        } else {
            Err(ExecError::ResourcesExhausted)
        }
    }

    /// Grow the reservation by `delta` bytes: succeeds exactly when the
    /// pool's capacity covers the grown size.
    pub fn try_grow(&mut self, delta: usize) -> (r: Result<(), ExecError>)
        requires
            old(self).wf(),
        ensures
            final(self).wf(),
            final(self).capacity == old(self).capacity,
            r is Ok <==> old(self).size + delta <= old(self).capacity,
            r is Ok ==> final(self).size as int == old(self).size + delta,
            r is Err ==> r == Result::<(), ExecError>::Err(ExecError::ResourcesExhausted)
                && final(self).size == old(self).size,
    {
        if delta <= self.capacity - self.size {
            self.size = self.size + delta;
            Ok(())
        } else {
            Err(ExecError::ResourcesExhausted)
        }
    }
}

/// The rows of a list of batches, one after another.
pub open spec fn concat_rows(batches: Seq<RecordBatch>) -> Seq<Seq<Cell>>
    decreases batches.len(),
{
    if batches.len() == 0 {
        Seq::empty()
    } else {
        concat_rows(batches.drop_last()) + batches.last().rows()
    }
}

/// Concatenate batches of one schema into a single batch holding all
/// their rows in order. Fails exactly when the list is empty or the
/// schemas disagree, or when the combined row count cannot be counted.
pub fn concat_batches(batches: &Vec<RecordBatch>) -> (r: Result<RecordBatch, ExecError>)
    requires
        forall|b: int| 0 <= b < batches@.len() ==> (#[trigger] batches@[b]).wf(),
    ensures
        r is Ok ==> {
            &&& r->Ok_0.wf()
            &&& r->Ok_0.schema@ == batches@[0].schema@
            &&& r->Ok_0.rows() == concat_rows(batches@)
        },
        r is Err ==> r == Result::<RecordBatch, ExecError>::Err(ExecError::InvalidInput),
        (batches@.len() >= 1 && (forall|b: int|
            0 <= b < batches@.len() ==> (#[trigger] batches@[b]).schema@ == batches@[0].schema@)
            && concat_rows(batches@).len() <= usize::MAX) ==> r is Ok,
{
    let n = batches.len();
    if n == 0 {
        return Err(ExecError::InvalidInput);
    }
    let mut b: usize = 0;
    while b < n
        invariant
            0 <= b <= n,
            n == batches@.len(),
            n >= 1,
            forall|w: int| 0 <= w < n ==> (#[trigger] batches@[w]).wf(),
            forall|w: int|
                0 <= w < b ==> (#[trigger] batches@[w]).schema@ == batches@[0].schema@,
        decreases n - b,
    {
        if batches[b].schema.len() != batches[0].schema.len() {
            proof {
                assert(batches@[b as int].schema@ != batches@[0].schema@);
            }
            return Err(ExecError::InvalidInput);
        }
        let ns = batches[0].schema.len();
        let mut c: usize = 0;
        while c < ns
            invariant
                0 <= c <= ns,
                b < n,
                n == batches@.len(),
                forall|w: int| 0 <= w < n ==> (#[trigger] batches@[w]).wf(),
                ns == batches@[0].schema@.len(),
                ns == batches@[b as int].schema@.len(),
                forall|w: int|
                    0 <= w < c ==> batches@[b as int].schema@[w] == batches@[0].schema@[w],
            decreases ns - c,
        {
            if batches[b].schema[c] != batches[0].schema[c] {
                proof {
                    assert(batches@[b as int].schema@ != batches@[0].schema@);
                }
                return Err(ExecError::InvalidInput);
            }
            c += 1;
        }
        proof {
            assert(batches@[b as int].schema@ =~= batches@[0].schema@);
        }
        b += 1;
    }
    // count the combined rows
    let mut total: usize = 0;
    let mut b2: usize = 0;
    while b2 < n
        invariant
            0 <= b2 <= n,
            n == batches@.len(),
            forall|w: int| 0 <= w < n ==> (#[trigger] batches@[w]).wf(),
            total as int == concat_rows(batches@.take(b2 as int)).len(),
        decreases n - b2,
    {
        proof {
            assert(batches@.take(b2 + 1).drop_last() =~= batches@.take(b2 as int));
            assert(batches@.take(b2 + 1).last() == batches@[b2 as int]);
        }
        let rows_here = batches[b2].num_rows;
        if total > usize::MAX - rows_here {
            proof {
                lemma_concat_rows_len_monotone(batches@, b2 + 1);
            }
            return Err(ExecError::InvalidInput);
        }
        total = total + rows_here;
        b2 += 1;
    }
    proof {
        assert(batches@.take(n as int) =~= batches@);
    }
    // stack the batches row range by row range
    let mut out = RecordBatch::new_empty(duplicate_types(&batches[0].schema));
    let mut b3: usize = 0;
    while b3 < n
        invariant
            0 <= b3 <= n,
            n == batches@.len(),
            n >= 1,
            forall|w: int| 0 <= w < n ==> (#[trigger] batches@[w]).wf(),
            forall|w: int|
                0 <= w < n ==> (#[trigger] batches@[w]).schema@ == batches@[0].schema@,
            concat_rows(batches@).len() <= usize::MAX,
            concat_rows(batches@.take(b3 as int)).len() <= concat_rows(batches@).len(),
            out.wf(),
            out.schema@ == batches@[0].schema@,
            out.rows() == concat_rows(batches@.take(b3 as int)),
        decreases n - b3,
    {
        proof {
            assert(batches@.take(b3 + 1).drop_last() =~= batches@.take(b3 as int));
            assert(batches@.take(b3 + 1).last() == batches@[b3 as int]);
            lemma_concat_rows_len_monotone(batches@, b3 + 1);
        }
        out = stack_batches(out, &batches[b3]);
        b3 += 1;
    }
    proof {
        assert(batches@.take(n as int) =~= batches@);
    }
    Ok(out)
}

proof fn lemma_concat_rows_len_monotone(batches: Seq<RecordBatch>, k: int)
    requires
        0 <= k <= batches.len(),
    ensures
        concat_rows(batches.take(k)).len() <= concat_rows(batches).len(),
    decreases batches.len() - k,
{
    if k < batches.len() {
        lemma_concat_rows_len_monotone(batches, k + 1);
        assert(batches.take(k + 1).drop_last() =~= batches.take(k));
    } else {
        assert(batches.take(k) =~= batches);
    }
}

/// A copy of a type list.
pub fn duplicate_types(a: &Vec<DataType>) -> (r: Vec<DataType>)
    ensures
        r@ == a@,
{
    let mut out: Vec<DataType> = Vec::new();
    let n = a.len();
    let mut i: usize = 0;
    while i < n
        invariant
            0 <= i <= n,
            n == a@.len(),
            out@.len() == i,
            forall|j: int| 0 <= j < i ==> out@[j] == a@[j],
        decreases n - i,
    {
        out.push(a[i]);
        i += 1;
    }
    proof {
        assert(out@ =~= a@);
    }
    out
}

/// One batch followed by another of the same schema.
fn stack_batches(first: RecordBatch, second: &RecordBatch) -> (r: RecordBatch)
    requires
        first.wf(),
        second.wf(),
        first.schema@ == second.schema@,
        first.num_rows + second.num_rows <= usize::MAX,
    ensures
        r.wf(),
        r.schema@ == first.schema@,
        r.rows() == first.rows() + second.rows(),
{
    let ncols = first.columns.len();
    let total = first.num_rows + second.num_rows;
    let mut columns: Vec<Column> = Vec::new();
    let mut c: usize = 0;
    while c < ncols
        invariant
            0 <= c <= ncols,
            first.wf(),
            second.wf(),
            first.schema@ == second.schema@,
            total == first.num_rows + second.num_rows,
            ncols == first.columns@.len(),
            columns@.len() == c,
            forall|w: int| 0 <= w < c ==> (#[trigger] columns@[w]).wf(),
            forall|w: int| 0 <= w < c ==> (#[trigger] columns@[w]).len_spec() == total,
            forall|w: int|
                0 <= w < c ==> (#[trigger] columns@[w]).matches_type_spec(first.schema@[w]),
            forall|w: int, i: int|
                0 <= w < c && 0 <= i < first.num_rows ==> (#[trigger] columns@[w].cell(i))
                    == first.columns@[w].cell(i),
            forall|w: int, i: int|
                0 <= w < c && 0 <= i < second.num_rows ==> (#[trigger] columns@[w].cell(
                    first.num_rows + i,
                )) == second.columns@[w].cell(i),
        decreases ncols - c,
    {
        let col = stack_columns(&first.columns[c], &second.columns[c]);
        columns.push(col);
        c += 1;
    }
    let schema = duplicate_types(&first.schema);
    let r = RecordBatch { schema, columns, num_rows: total };
    proof {
        assert forall|i: int| 0 <= i < total implies #[trigger] r.rows()[i] == (first.rows()
            + second.rows())[i] by {
            if i < first.num_rows {
                assert forall|c2: int|
                    0 <= c2 < r.columns@.len() implies r.row(i)[c2] == first.row(i)[c2] by {
                    assert(columns@[c2].cell(i) == first.columns@[c2].cell(i));
                }
                assert(r.row(i) =~= first.row(i));
            } else {
                assert forall|c2: int|
                    0 <= c2 < r.columns@.len() implies r.row(i)[c2] == second.row(
                    i - first.num_rows,
                )[c2] by {
                    assert(columns@[c2].cell(first.num_rows + (i - first.num_rows))
                        == second.columns@[c2].cell(i - first.num_rows));
                }
                assert(r.row(i) =~= second.row(i - first.num_rows));
            }
        }
        assert(r.rows() =~= first.rows() + second.rows());
    }
    r
}

/// One column followed by another of the same shape.
fn stack_columns(a: &Column, b: &Column) -> (r: Column)
    requires
        a.wf(),
        b.wf(),
        forall|dt: DataType| a.matches_type_spec(dt) == b.matches_type_spec(dt),
        a.len_spec() + b.len_spec() <= usize::MAX,
    ensures
        r.wf(),
        r.len_spec() == a.len_spec() + b.len_spec(),
        forall|dt: DataType| r.matches_type_spec(dt) == a.matches_type_spec(dt),
        forall|i: int| 0 <= i < a.len_spec() ==> r.cell(i) == a.cell(i),
        forall|i: int|
            0 <= i < b.len_spec() ==> r.cell(a.len_spec() + i) == b.cell(i),
{
    match (a, b) {
        (Column::Int64(x), Column::Int64(y)) => {
            let mut values: Vec<i64> = Vec::new();
            let mut valid: Vec<bool> = Vec::new();
            values.extend_from_slice(x.values.as_slice());
            values.extend_from_slice(y.values.as_slice());
            valid.extend_from_slice(x.valid.as_slice());
            valid.extend_from_slice(y.valid.as_slice());
            let r = Column::Int64(PrimitiveColumn { values, valid });
            proof {
                assert forall|i: int| 0 <= i < x.len_spec() implies r.cell(i) == a.cell(i) by {}
                assert forall|i: int|
                    0 <= i < y.len_spec() implies r.cell(x.len_spec() + i) == b.cell(i) by {}
            }
            r
        },
        (Column::Bool(x), Column::Bool(y)) => {
            let mut values: Vec<bool> = Vec::new();
            let mut valid: Vec<bool> = Vec::new();
            values.extend_from_slice(x.values.as_slice());
            values.extend_from_slice(y.values.as_slice());
            valid.extend_from_slice(x.valid.as_slice());
            valid.extend_from_slice(y.valid.as_slice());
            let r = Column::Bool(BoolColumn { values, valid });
            proof {
                assert forall|i: int| 0 <= i < x.len_spec() implies r.cell(i) == a.cell(i) by {}
                assert forall|i: int|
                    0 <= i < y.len_spec() implies r.cell(x.len_spec() + i) == b.cell(i) by {}
            }
            r
        },
        (Column::Bytes(x), Column::Bytes(y)) => {
            let first_part = x.slice_range(0, x.len());
            let mut values = first_part.values;
            let mut valid = first_part.valid;
            let second_part = y.slice_range(0, y.len());
            let ghost mid_values = values@;
            let ghost mid_valid = valid@;
            let mut sv = second_part.values;
            let mut sd = second_part.valid;
            values.append(&mut sv);
            valid.append(&mut sd);
            let r = Column::Bytes(BytesColumn { values, valid });
            proof {
                assert forall|i: int| 0 <= i < x.len_spec() implies r.cell(i) == a.cell(i) by {
                    assert(values@[i] == mid_values[i]);
                    assert(valid@[i] == mid_valid[i]);
                    assert(first_part.cell(i) == x.cell(i));
                }
                assert forall|i: int|
                    0 <= i < y.len_spec() implies r.cell(x.len_spec() + i) == b.cell(i) by {
                    assert(values@[x.len_spec() + i] == second_part.values@[i]);
                    assert(valid@[x.len_spec() + i] == second_part.valid@[i]);
                    assert(second_part.cell(i) == y.cell(i));
                }
            }
            r
        },
        _ => {
            proof {
                assert(false) by {
                    match a {
                        Column::Int64(_) => {
                            assert(a.matches_type_spec(DataType::Int64));
                            assert(b.matches_type_spec(DataType::Int64));
                        },
                        Column::Bytes(_) => {
                            assert(a.matches_type_spec(DataType::Bytes));
                            assert(b.matches_type_spec(DataType::Bytes));
                        },
                        Column::Bool(_) => {
                            assert(a.matches_type_spec(DataType::Bool));
                            assert(b.matches_type_spec(DataType::Bool));
                        },
                    }
                }
            }
            Column::Int64(PrimitiveColumn::new_empty())
        },
    }
}

/// The cells a well-formed column holds match its declared type.
pub proof fn lemma_column_cells_match(col: Column, dt: DataType, i: int)
    requires
        col.wf(),
        col.matches_type_spec(dt),
        0 <= i < col.len_spec(),
    ensures
        crate::encoder::cell_matches(col.cell(i), dt),
{
    match col {
        Column::Int64(c) => {},
        Column::Bytes(c) => {},
        Column::Bool(c) => {},
    }
}

} // verus!
