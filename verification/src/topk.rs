//! The bounded Top-K operator: retains the K smallest rows of an input
//! stream under a lexicographic sort-key definition, stable on insertion
//! order, keeping whole source batches alive by reference count.

use vstd::prelude::*;

use crate::data::{
    sat_add, sat_add_spec, BytesColumn, Cell, Column, DataType, MemoryReservation,
    PrimitiveColumn, RecordBatch, SortField, SortOptions,
};
use crate::error::ExecError;
use crate::lex::{
    bytes_le, lemma_lex_le_trans, lemma_lex_lt_trans, lemma_lex_trichotomy, lex_le, lex_lt,
};

verus! {

/// A sort expression for the Top-K operator: the index of the key column
/// and its sort options.
#[derive(Clone, Copy, PartialEq, Eq, Structural, Debug)]
pub struct SortKey {
    pub column: usize,
    pub options: SortOptions,
}

/// Counters the operator reports: emitted rows and how many heap
/// insertions happened.
pub struct TopKMetrics {
    pub output_rows: u64,
    pub row_replacements: u64,
}

impl TopKMetrics {
    pub fn new() -> (r: Self)
        ensures
            r.output_rows == 0,
            r.row_replacements == 0,
    {
        TopKMetrics { output_rows: 0, row_replacements: 0 }
    }
}

/// One of the top K rows held by the heap: the encoded sort key, the
/// identifier of the source batch and the row's index within it.
pub struct TopKRow {
    pub row: Vec<u8>,
    pub batch_id: u32,
    pub index: usize,
}

impl TopKRow {
    /// A new row with a fresh key allocation.
    pub fn new(row: &[u8], batch_id: u32, index: usize) -> (r: Self)
        ensures
            r.row@ == row@,
            r.batch_id == batch_id,
            r.index == index,
    {
        let mut key: Vec<u8> = Vec::new();
        key.extend_from_slice(row);
        TopKRow { row: key, batch_id, index }
    }

    /// A new row reusing this row's key allocation.
    pub fn with_new_row(self, new_row: &[u8], batch_id: u32, index: usize) -> (r: Self)
        ensures
            r.row@ == new_row@,
            r.batch_id == batch_id,
            r.index == index,
    {
        let TopKRow { mut row, batch_id: _, index: _ } = self;
        row.clear();
        row.extend_from_slice(new_row);
        TopKRow { row, batch_id, index }
    }

    /// The bytes owned by this row's key.
    pub fn owned_size(&self) -> (r: usize)
        ensures
            r == self.row@.len(),
    {
        self.row.len()
    }

    /// The owned key bytes.
    pub fn row(&self) -> (r: &[u8])
        ensures
            r@ == self.row@,
    {
        self.row.as_slice()
    }
}

/// A batch retained by the store: its identifier, the batch, and how many
/// heap rows point into it.
pub struct RecordBatchEntry {
    pub id: u32,
    pub batch: RecordBatch,
    pub uses: usize,
}

/// The index of the entry with the given identifier, if any.
pub open spec fn find_entry(entries: Seq<RecordBatchEntry>, id: u32) -> Option<int>
    decreases entries.len(),
{
    if entries.len() == 0 {
        None
    } else if entries[0].id == id {
        Some(0)
    } else {
        match find_entry(entries.skip(1), id) {
            Some(i) => Some(i + 1),
            None => None,
        }
    }
}

/// What `find_entry` returns: the first index carrying the identifier.
pub proof fn lemma_find_entry(entries: Seq<RecordBatchEntry>, id: u32)
    ensures
        match find_entry(entries, id) {
            Some(i) => 0 <= i < entries.len() && entries[i].id == id && forall|j: int|
                0 <= j < i ==> entries[j].id != id,
            None => forall|j: int| 0 <= j < entries.len() ==> entries[j].id != id,
        },
    decreases entries.len(),
{
    if entries.len() > 0 {
        lemma_find_entry(entries.skip(1), id);
        if entries[0].id != id {
            match find_entry(entries.skip(1), id) {
                Some(i) => {
                    assert forall|j: int| 0 <= j < i + 1 implies entries[j].id != id by {
                        if j > 0 {
                            assert(entries.skip(1)[j - 1].id != id);
                        }
                    }
                    assert(entries[i + 1] == entries.skip(1)[i]);
                },
                None => {
                    assert forall|j: int| 0 <= j < entries.len() implies entries[j].id != id by {
                        if j > 0 {
                            assert(entries.skip(1)[j - 1].id != id);
                        }
                    }
                },
            }
        }
    }
}

/// Tracks retained record batches by identifier and accounts their bytes.
pub struct RecordBatchStore {
    pub next_id: u32,
    pub batches: Vec<RecordBatchEntry>,
    pub batches_size: usize,
    pub schema: Vec<DataType>,
}

impl RecordBatchStore {
    /// Well-formed: identifiers are unique, below the id counter, and
    /// every retained batch is well-formed against the store's schema and
    /// pinned by at least one use.
    pub open spec fn wf(&self) -> bool {
        &&& forall|e: int|
            0 <= e < self.batches@.len() ==> (#[trigger] self.batches@[e]).id < self.next_id
        &&& forall|a: int, b: int|
            0 <= a < b < self.batches@.len() ==> (#[trigger] self.batches@[a].id) != (
            #[trigger] self.batches@[b].id)
        &&& forall|e: int| 0 <= e < self.batches@.len() ==> (#[trigger] self.batches@[e]).batch.wf()
        &&& forall|e: int|
            0 <= e < self.batches@.len() ==> (#[trigger] self.batches@[e]).batch.schema@
                == self.schema@
        &&& forall|e: int| 0 <= e < self.batches@.len() ==> (#[trigger] self.batches@[e]).uses >= 1
    }

    pub fn new(schema: Vec<DataType>) -> (r: Self)
        ensures
            r.wf(),
            r.next_id == 0,
            r.batches@.len() == 0,
            r.schema@ == schema@,
    {
        RecordBatchStore { next_id: 0, batches: Vec::new(), batches_size: 0, schema }
    }

    /// Register a batch, assigning it the next identifier with no uses.
    /// The entry is not retained until it is inserted.
    pub fn register(&mut self, batch: RecordBatch) -> (r: RecordBatchEntry)
        requires
            old(self).next_id < u32::MAX,
        ensures
            r.id == old(self).next_id,
            r.batch == batch,
            r.uses == 0,
            final(self).next_id == old(self).next_id + 1,
            final(self).batches@ == old(self).batches@,
            final(self).batches_size == old(self).batches_size,
            final(self).schema@ == old(self).schema@,
            old(self).wf() ==> final(self).wf(),
    {
        let id = self.next_id;
        self.next_id = self.next_id + 1;
        RecordBatchEntry { id, batch, uses: 0 }
    }

    /// Retain an entry if any heap row points into it; an unused entry is
    /// dropped.
    pub fn insert(&mut self, entry: RecordBatchEntry)
        requires
            old(self).wf(),
            entry.id < old(self).next_id,
            find_entry(old(self).batches@, entry.id) is None,
            entry.batch.wf(),
            entry.batch.schema@ == old(self).schema@,
        ensures
            final(self).wf(),
            final(self).next_id == old(self).next_id,
            final(self).schema@ == old(self).schema@,
            entry.uses > 0 ==> final(self).batches@ == old(self).batches@.push(entry),
            entry.uses > 0 ==> final(self).batches_size as nat == crate::data::sat_add_spec(
                old(self).batches_size as nat,
                crate::data::batch_size_spec(entry.batch),
            ),
            entry.uses == 0 ==> final(self).batches@ == old(self).batches@
                && final(self).batches_size == old(self).batches_size,
    {
        if entry.uses > 0 {
            proof {
                lemma_find_entry(self.batches@, entry.id);
            }
            let sz = entry.batch.size_bytes();
            self.batches_size = sat_add(self.batches_size, sz);
            self.batches.push(entry);
        }
    }

    /// Look an entry up by identifier.
    pub fn get(&self, id: u32) -> (r: Option<&RecordBatchEntry>)
        ensures
            match r {
                Some(e) => find_entry(self.batches@, id) is Some && *e == self.batches@[
                    find_entry(self.batches@, id)->Some_0],
                None => find_entry(self.batches@, id) is None,
            },
    {
        proof {
            lemma_find_entry(self.batches@, id);
        }
        let n = self.batches.len();
        let mut i: usize = 0;
        while i < n
            invariant
                0 <= i <= n,
                n == self.batches@.len(),
                forall|j: int| 0 <= j < i ==> (#[trigger] self.batches@[j]).id != id,
            decreases n - i,
        {
            if self.batches[i].id == id {
                proof {
                    lemma_find_entry(self.batches@, id);
                    match find_entry(self.batches@, id) {
                        Some(k) => {
                            assert(k == i);
                        },
                        None => {
                            assert(false);
                        },
                    }
                }
                return Some(&self.batches[i]);
            }
            i += 1;
        }
        None
    }

    /// The number of retained batches.
    pub fn len(&self) -> (r: usize)
        ensures
            r == self.batches@.len(),
    {
        self.batches.len()
    }

    /// The schema of the retained batches.
    pub fn schema_of(&self) -> (r: &Vec<DataType>)
        ensures
            r@ == self.schema@,
    {
        &self.schema
    }

    /// Remove one use from the identified batch; the batch leaves the
    /// store when its last use is removed.
    pub fn unuse(&mut self, id: u32)
        requires
            old(self).wf(),
            find_entry(old(self).batches@, id) is Some,
        ensures
            final(self).wf(),
            final(self).next_id == old(self).next_id,
            final(self).schema@ == old(self).schema@,
            ({
                let i = find_entry(old(self).batches@, id)->Some_0;
                if old(self).batches@[i].uses == 1 {
                    final(self).batches@ == old(self).batches@.remove(i)
                        && final(self).batches_size as nat == (if crate::data::batch_size_spec(
                        old(self).batches@[i].batch,
                    ) <= old(self).batches_size {
                        (old(self).batches_size - crate::data::batch_size_spec(
                            old(self).batches@[i].batch,
                        )) as nat
                    } else {
                        0nat
                    })
                } else {
                    final(self).batches@ == old(self).batches@.update(
                        i,
                        RecordBatchEntry {
                            id: old(self).batches@[i].id,
                            batch: old(self).batches@[i].batch,
                            uses: (old(self).batches@[i].uses - 1) as usize,
                        },
                    ) && final(self).batches_size == old(self).batches_size
                }
            }),
    {
        proof {
            lemma_find_entry(self.batches@, id);
        }
        let n = self.batches.len();
        let mut i: usize = 0;
        while i < n && self.batches[i].id != id
            invariant
                0 <= i <= n,
                *self == *old(self),
                n == self.batches@.len(),
                forall|j: int| 0 <= j < i ==> (#[trigger] self.batches@[j]).id != id,
            decreases n - i,
        {
            i += 1;
        }
        proof {
            lemma_find_entry(self.batches@, id);
            if i >= n {
                assert(false);
            }
            assert(find_entry(self.batches@, id)->Some_0 == i);
        }
        let ghost oldb = self.batches@;
        let uses = self.batches[i].uses;
        if uses == 1 {
            let old_entry = self.batches.remove(i);
            let sz = old_entry.batch.size_bytes();
            if sz <= self.batches_size {
                self.batches_size = self.batches_size - sz;
            } else {
                self.batches_size = 0;
            }
            proof {
                assert forall|a: int, b: int|
                    0 <= a < b < self.batches@.len() implies (#[trigger] self.batches@[a].id) != (
                #[trigger] self.batches@[b].id) by {
                    let oa: int = if a < i {
                        a
                    } else {
                        a + 1
                    };
                    let ob: int = if b < i {
                        b
                    } else {
                        b + 1
                    };
                    assert(self.batches@[a] == oldb[oa]);
                    assert(self.batches@[b] == oldb[ob]);
                }
            }
        } else {
            proof {
                assert(oldb[i as int].uses >= 1);
            }
            let entry = self.batches.remove(i);
            let new_entry = RecordBatchEntry {
                id: entry.id,
                batch: entry.batch,
                uses: entry.uses - 1,
            };
            self.batches.insert(i, new_entry);
            proof {
                assert(self.batches@ =~= oldb.update(
                    i as int,
                    RecordBatchEntry {
                        id: oldb[i as int].id,
                        batch: oldb[i as int].batch,
                        uses: (oldb[i as int].uses - 1) as usize,
                    },
                ));
            }
        }
    }

    /// The bytes the retained batches hold, as accounted at insertion.
    pub fn size(&self) -> (r: usize)
        ensures
            r == self.batches_size,
    {
        self.batches_size
    }
}

/// Stable comparison of offered rows: by encoded key, ties broken by
/// earlier arrival.
pub open spec fn stable_lt(k1: Seq<u8>, p1: int, k2: Seq<u8>, p2: int) -> bool {
    lex_lt(k1, k2) || (k1 == k2 && p1 < p2)
}

/// The stable order is transitive.
pub proof fn lemma_stable_lt_trans(
    k1: Seq<u8>,
    p1: int,
    k2: Seq<u8>,
    p2: int,
    k3: Seq<u8>,
    p3: int,
)
    requires
        stable_lt(k1, p1, k2, p2),
        stable_lt(k2, p2, k3, p3),
    ensures
        stable_lt(k1, p1, k3, p3),
{
    if lex_lt(k1, k2) && lex_lt(k2, k3) {
        lemma_lex_lt_trans(k1, k2, k3);
    }
}

/// One row offered to the heap: its encoded sort key, its source batch
/// and row index, and the row's cell values.
pub ghost struct SeenRow {
    pub key: Seq<u8>,
    pub batch_id: u32,
    pub index: usize,
    pub cells: Seq<Cell>,
}

/// How many heap rows point into batch `id`.
pub open spec fn uses_count(inner: Seq<TopKRow>, id: u32) -> nat {
    inner.filter(|r: TopKRow| r.batch_id == id).len()
}

proof fn lemma_count_singleton(x: TopKRow, id: u32)
    ensures
        uses_count(seq![x], id) == if x.batch_id == id {
            1nat
        } else {
            0nat
        },
{
    reveal(Seq::filter);
    let pred = |r: TopKRow| r.batch_id == id;
    let s = seq![x];
    assert(s.drop_last() =~= Seq::<TopKRow>::empty());
    assert(Seq::<TopKRow>::empty().filter(pred) =~= Seq::<TopKRow>::empty());
    assert(s.last() == x);
    assert(s.filter(pred) == if pred(s.last()) {
        s.drop_last().filter(pred).push(s.last())
    } else {
        s.drop_last().filter(pred)
    });
    if x.batch_id == id {
        assert(s.filter(pred) =~= Seq::<TopKRow>::empty().push(x));
    } else {
        assert(s.filter(pred) =~= Seq::<TopKRow>::empty());
    }
}

proof fn lemma_count_concat(a: Seq<TopKRow>, b: Seq<TopKRow>, id: u32)
    ensures
        uses_count(a + b, id) == uses_count(a, id) + uses_count(b, id),
{
    let pred = |r: TopKRow| r.batch_id == id;
    Seq::filter_distributes_over_add(a, b, pred);
}

proof fn lemma_count_zero(s: Seq<TopKRow>, id: u32)
    requires
        uses_count(s, id) == 0,
    ensures
        forall|j: int| 0 <= j < s.len() ==> (#[trigger] s[j]).batch_id != id,
{
    let pred = |r: TopKRow| r.batch_id == id;
    assert forall|j: int| 0 <= j < s.len() implies (#[trigger] s[j]).batch_id != id by {
        if s[j].batch_id == id {
            s.lemma_filter_contains(pred, j);
            assert(s.filter(pred).contains(s[j]));
        }
    }
}

/// The heap of the Top-K operator: at most `k` rows in ascending stable
/// key order, the batches those rows point into, and — as specification
/// state — every row ever offered, in arrival order, with the positions
/// the retained rows hold in that history.
pub struct TopKHeap {
    pub k: usize,
    pub inner: Vec<TopKRow>,
    pub store: RecordBatchStore,
    pub owned_bytes: usize,
    pub seen: Ghost<Seq<SeenRow>>,
    pub pos: Ghost<Seq<int>>,
    pub evictions: Ghost<nat>,
}

impl TopKHeap {
    /// The retained batch a heap row resolves through: the pending entry
    /// of the batch being inserted, or a stored entry.
    pub open spec fn entry_of(&self, id: u32, pending: Option<RecordBatchEntry>) -> Option<
        RecordBatchEntry,
    > {
        if pending is Some && pending->Some_0.id == id {
            pending
        } else {
            match find_entry(self.store.batches@, id) {
                Some(i) => Some(self.store.batches@[i]),
                None => None,
            }
        }
    }

    /// Heap row `j` faithfully stands for the offered row at its history
    /// position, and resolves to a retained batch that holds its cells.
    pub open spec fn row_linked(&self, j: int, pending: Option<RecordBatchEntry>) -> bool {
        let r = self.inner@[j];
        let p = self.pos@[j];
        &&& 0 <= p < self.seen@.len()
        &&& r.row@ == self.seen@[p].key
        &&& r.batch_id == self.seen@[p].batch_id
        &&& r.index == self.seen@[p].index
        &&& match self.entry_of(r.batch_id, pending) {
            Some(e) => r.index < e.batch.num_rows && e.batch.row(r.index as int)
                == self.seen@[p].cells,
            None => false,
        }
    }

    /// The heap invariant, stated against an optional batch entry whose
    /// insertion is in progress:
    /// - the heap holds `min(k, rows offered)` rows, in strictly
    ///   ascending stable key order;
    /// - every offered row that is not retained sorts strictly after
    ///   every retained row, under the stable order;
    /// - every retained row points into a retained batch that holds its
    ///   cells, and each batch's use count is exactly the number of heap
    ///   rows pointing into it.
    pub open spec fn inv_pending(&self, pending: Option<RecordBatchEntry>) -> bool {
        &&& self.k >= 1
        &&& self.inner@.len() <= self.k
        &&& self.pos@.len() == self.inner@.len()
        &&& self.inner@.len() == if self.k <= self.seen@.len() {
            self.k as nat
        } else {
            self.seen@.len()
        }
        &&& forall|j: int| 0 <= j < self.inner@.len() ==> self.row_linked(j, pending)
        &&& forall|a: int, b: int|
            0 <= a < b < self.inner@.len() ==> stable_lt(
                (#[trigger] self.inner@[a]).row@,
                self.pos@[a],
                (#[trigger] self.inner@[b]).row@,
                self.pos@[b],
            )
        &&& (self.seen@.len() <= self.k ==> forall|p: int|
            0 <= p < self.seen@.len() ==> self.pos@.contains(p))
        &&& forall|p: int, j: int|
            0 <= p < self.seen@.len() && !self.pos@.contains(p) && 0 <= j < self.inner@.len()
                ==> stable_lt(
                (#[trigger] self.inner@[j]).row@,
                self.pos@[j],
                (#[trigger] self.seen@[p]).key,
                p,
            )
        &&& self.store.wf()
        &&& forall|e: int|
            0 <= e < self.store.batches@.len() ==> (#[trigger] self.store.batches@[e]).uses
                == uses_count(self.inner@, self.store.batches@[e].id)
        &&& match pending {
            Some(e) => {
                &&& e.uses == uses_count(self.inner@, e.id)
                &&& find_entry(self.store.batches@, e.id) is None
                &&& e.id < self.store.next_id
                &&& e.batch.wf()
                &&& e.batch.schema@ == self.store.schema@
            },
            None => true,
        }
    }

    /// Well-formed with no insertion in progress.
    pub open spec fn wf(&self) -> bool {
        self.inv_pending(None)
    }

    pub fn new(k: usize, schema: Vec<DataType>) -> (r: Self)
        requires
            k >= 1,
        ensures
            r.wf(),
            r.k == k,
            r.seen@.len() == 0,
            r.inner@.len() == 0,
            r.store.schema@ == schema@,
            r.store.next_id == 0,
            r.evictions@ == 0,
    {
        TopKHeap {
            k,
            inner: Vec::new(),
            store: RecordBatchStore::new(schema),
            owned_bytes: 0,
            seen: Ghost(Seq::empty()),
            pos: Ghost(Seq::empty()),
            evictions: Ghost(0),
        }
    }

    /// Register a batch with the heap's store.
    pub fn register_batch(&mut self, batch: RecordBatch) -> (r: RecordBatchEntry)
        requires
            old(self).store.next_id < u32::MAX,
        ensures
            r.id == old(self).store.next_id,
            r.batch == batch,
            r.uses == 0,
            final(self).store.next_id == old(self).store.next_id + 1,
            final(self).store.batches@ == old(self).store.batches@,
            final(self).store.schema@ == old(self).store.schema@,
            final(self).k == old(self).k,
            final(self).inner@ == old(self).inner@,
            final(self).seen@ == old(self).seen@,
            final(self).pos@ == old(self).pos@,
            final(self).evictions@ == old(self).evictions@,
            final(self).store.batches_size == old(self).store.batches_size,
    {
        self.store.register(batch)
    }

    /// The largest retained row, when the heap is full.
    pub fn k_largest(&self) -> (r: Option<&TopKRow>)
        requires
            self.wf(),
        ensures
            match r {
                Some(row) => self.inner@.len() == self.k && *row == self.inner@[
                    self.inner@.len() - 1],
                None => self.inner@.len() < self.k,
            },
    {
        if self.inner.len() < self.k {
            None
        } else {
            let n = self.inner.len();
            Some(&self.inner[n - 1])
        }
    }
}

proof fn lemma_count_drop_last(s: Seq<TopKRow>, id: u32)
    requires
        s.len() > 0,
    ensures
        uses_count(s, id) == uses_count(s.drop_last(), id) + (if s.last().batch_id == id {
            1nat
        } else {
            0nat
        }),
{
    assert(s =~= s.drop_last() + seq![s.last()]);
    lemma_count_concat(s.drop_last(), seq![s.last()], id);
    lemma_count_singleton(s.last(), id);
}

proof fn lemma_count_insert(s: Seq<TopKRow>, i: int, x: TopKRow, id: u32)
    requires
        0 <= i <= s.len(),
    ensures
        uses_count(s.insert(i, x), id) == uses_count(s, id) + (if x.batch_id == id {
            1nat
        } else {
            0nat
        }),
{
    assert(s.insert(i, x) =~= s.take(i) + seq![x] + s.skip(i));
    assert(s =~= s.take(i) + s.skip(i));
    lemma_count_concat(s.take(i) + seq![x], s.skip(i), id);
    lemma_count_concat(s.take(i), seq![x], id);
    lemma_count_concat(s.take(i), s.skip(i), id);
    lemma_count_singleton(x, id);
}

impl TopKHeap {
    /// Offer one row of the batch being inserted: the row is always
    /// recorded; it is retained when the heap is not yet full or when it
    /// sorts strictly before the largest retained row, evicting that row.
    /// Returns whether the row was retained.
    #[verifier::rlimit(60)]
    pub fn offer(
        &mut self,
        entry: &mut RecordBatchEntry,
        row: &Vec<u8>,
        index: usize,
        Ghost(cells): Ghost<Seq<Cell>>,
    ) -> (added: bool)
        requires
            old(self).inv_pending(Some(*old(entry))),
            index < old(entry).batch.num_rows,
            old(entry).batch.row(index as int) == cells,
        ensures
            final(self).inv_pending(Some(*final(entry))),
            final(entry).id == old(entry).id,
            final(entry).batch == old(entry).batch,
            final(self).seen@ == old(self).seen@.push(
                SeenRow { key: row@, batch_id: old(entry).id, index, cells },
            ),
            final(self).k == old(self).k,
            final(self).store.schema@ == old(self).store.schema@,
            final(self).store.next_id == old(self).store.next_id,
            added == !(old(self).inner@.len() == old(self).k && lex_le(
                old(self).inner@[old(self).inner@.len() - 1].row@,
                row@,
            )),
            final(self).evictions@ == old(self).evictions@ + (if old(self).inner@.len() == old(
                self,
            ).k && added {
                1nat
            } else {
                0nat
            }),
    {
        broadcast use vstd::seq_lib::group_filter_ensures;

        let ghost old_seen = self.seen@;
        let ghost old_pos = self.pos@;
        let ghost old_inner = self.inner@;
        let ghost p = old_seen.len() as int;
        let ghost new_seen_row = SeenRow { key: row@, batch_id: entry.id, index, cells };
        proof {
            self.seen@ = old_seen.push(new_seen_row);
        }
        let n = self.inner.len();
        if n == self.k {
            let skip_row = bytes_le(self.inner[n - 1].row.as_slice(), row.as_slice());
            if skip_row {
                proof {
                    let largest = old_inner[n - 1].row@;
                    assert forall|j: int| 0 <= j < old_inner.len() implies stable_lt(
                        (#[trigger] old_inner[j]).row@,
                        old_pos[j],
                        new_seen_row.key,
                        p,
                    ) by {
                        let kj = old_inner[j].row@;
                        if j < n - 1 {
                            assert(stable_lt(kj, old_pos[j], largest, old_pos[n - 1]));
                        }
                        lemma_lex_trichotomy(kj, largest);
                        lemma_lex_trichotomy(largest, kj);
                        assert(lex_le(kj, largest));
                        lemma_lex_le_trans(kj, largest, row@);
                        if kj == row@ {
                            assert(old(self).row_linked(j, Some(*old(entry))));
                            assert(old_pos[j] < p);
                        } else {
                            lemma_lex_trichotomy(kj, row@);
                            assert(lex_lt(kj, row@));
                        }
                    }
                    assert forall|j: int|
                        0 <= j < self.inner@.len() implies self.row_linked(
                        j,
                        Some(*entry),
                    ) by {
                        assert(old(self).row_linked(j, Some(*old(entry))));
                        assert(self.seen@[old_pos[j]] == old_seen[old_pos[j]]);
                    }
                    assert forall|q: int, j: int|
                        0 <= q < self.seen@.len() && !self.pos@.contains(q) && 0 <= j
                            < self.inner@.len() implies stable_lt(
                        (#[trigger] self.inner@[j]).row@,
                        self.pos@[j],
                        (#[trigger] self.seen@[q]).key,
                        q,
                    ) by {
                        if q < old_seen.len() {
                            assert(self.seen@[q] == old_seen[q]);
                            assert(old(self).inv_pending(Some(*old(entry))));
                        } else {
                            assert(q == p);
                            assert(self.seen@[q] == new_seen_row);
                        }
                    }
                }
                return false;
            }
        }
        // retained: evict the largest retained row when full
        let mut new_row: TopKRow;
        if n == self.k {
            proof {
                assert(old_inner.len() > 0);
                self.evictions@ = self.evictions@ + 1;
            }
            let prev = match self.inner.pop() {
                Some(r) => r,
                None => {
                    proof {
                        assert(false);
                    }
                    TopKRow { row: Vec::new(), batch_id: 0, index: 0 }
                },
            };
            proof {
                self.pos@ = self.pos@.drop_last();
            }
            proof {
                lemma_count_drop_last(old_inner, prev.batch_id);
                lemma_count_drop_last(old_inner, entry.id);
            }
            if prev.batch_id == entry.id {
                proof {
                    assert(entry.uses == uses_count(old_inner, entry.id));
                    assert(uses_count(old_inner, entry.id) >= 1);
                }
                entry.uses = entry.uses - 1;
            } else {
                proof {
                    assert(old(self).row_linked(n - 1, Some(*old(entry))));
                    lemma_find_entry(self.store.batches@, prev.batch_id);
                }
                self.store.unuse(prev.batch_id);
            }
            let osz = prev.owned_size();
            if osz <= self.owned_bytes {
                self.owned_bytes = self.owned_bytes - osz;
            } else {
                self.owned_bytes = 0;
            }
            new_row = prev.with_new_row(row.as_slice(), entry.id, index);
        } else {
            new_row = TopKRow::new(row.as_slice(), entry.id, index);
        }
        proof {
            assert(uses_count(self.inner@, entry.id) <= self.inner@.len());
        }
        entry.uses = entry.uses + 1;
        let osz2 = new_row.owned_size();
        self.owned_bytes = sat_add(self.owned_bytes, osz2);
        // find the insertion point that keeps the retained rows sorted
        let m = self.inner.len();
        let mut idx: usize = 0;
        let mut scanning = true;
        while idx < m && scanning
            invariant
                0 <= idx <= m,
                m == self.inner@.len(),
                forall|q: int| 0 <= q < idx ==> lex_le((#[trigger] self.inner@[q]).row@, row@),
                !scanning ==> idx < m && lex_lt(row@, self.inner@[idx as int].row@),
            decreases m - idx + (if scanning { 1int } else { 0int }),
        {
            if bytes_le(self.inner[idx].row.as_slice(), row.as_slice()) {
                idx += 1;
            } else {
                scanning = false;
            }
        }
        let ghost mid_inner = self.inner@;
        let ghost mid_pos = self.pos@;
        self.inner.insert(idx, new_row);
        proof {
            self.pos@ = mid_pos.insert(idx as int, p);
        }
        proof {
            let cur = *entry;
            let fin_inner = self.inner@;
            let fin_pos = self.pos@;
            let full = n == old(self).k;
            let idxi = idx as int;
            let prev_row: TopKRow = if full {
                old_inner.last()
            } else {
                new_row
            };
            let popped_pos: int = if full {
                old_pos[n - 1]
            } else {
                -1
            };
            // relate the pre-insert rows to the old rows
            assert(mid_inner == if full {
                old_inner.drop_last()
            } else {
                old_inner
            });
            assert(mid_pos == if full {
                old_pos.drop_last()
            } else {
                old_pos
            });
            // relate the final rows to the pre-insert rows
            assert(fin_inner == mid_inner.insert(idxi, new_row));
            assert(fin_pos == mid_pos.insert(idxi, p));
            assert(new_row.row@ == row@ && new_row.batch_id == cur.id && new_row.index == index);
            assert(fin_inner.len() == mid_inner.len() + 1);
            assert(forall|j: int|
                0 <= j < idxi ==> #[trigger] fin_inner[j] == mid_inner[j] && fin_pos[j]
                    == mid_pos[j]);
            assert(fin_inner[idxi] == new_row && fin_pos[idxi] == p);
            assert(forall|j: int|
                idxi < j < fin_inner.len() ==> #[trigger] fin_inner[j] == mid_inner[j - 1]
                    && fin_pos[j] == mid_pos[j - 1]);
            // every old row keeps its linkage facts under the pushed history
            assert forall|j: int| 0 <= j < old_inner.len() implies old(self).row_linked(
                j,
                Some(*old(entry)),
            ) by {}
            assert(forall|j: int|
                0 <= j < mid_inner.len() ==> #[trigger] mid_inner[j] == old_inner[j]
                    && mid_pos[j] == old_pos[j]);
            // the new row sorts strictly before the evicted row
            if full {
                assert(lex_lt(row@, prev_row.row@));
            }
            // positions recorded before this offer lie below p
            assert forall|j: int| 0 <= j < old_inner.len() implies 0 <= #[trigger] old_pos[j]
                < p by {
                assert(old(self).row_linked(j, Some(*old(entry))));
            }

            // --- order: the final rows are strictly sorted ---
            assert forall|a: int, b: int| 0 <= a < b < fin_inner.len() implies stable_lt(
                (#[trigger] fin_inner[a]).row@,
                fin_pos[a],
                (#[trigger] fin_inner[b]).row@,
                fin_pos[b],
            ) by {
                if a < idxi && b < idxi {
                } else if a < idxi && b == idxi {
                    // scanned rows sort no later than the new key
                    assert(lex_le(mid_inner[a].row@, row@));
                    if mid_inner[a].row@ == row@ {
                    } else {
                        lemma_lex_trichotomy(mid_inner[a].row@, row@);
                    }
                } else if a < idxi && b > idxi {
                } else if a == idxi && b > idxi {
                    // the new key sorts strictly before the row at the
                    // insertion point, and transitively before the rest
                    assert(lex_lt(row@, mid_inner[idxi].row@));
                    if b > idxi + 1 {
                        assert(stable_lt(
                            mid_inner[idxi].row@,
                            mid_pos[idxi],
                            mid_inner[b - 1].row@,
                            mid_pos[b - 1],
                        ));
                        lemma_stable_lt_trans(
                            row@,
                            p,
                            mid_inner[idxi].row@,
                            mid_pos[idxi],
                            mid_inner[b - 1].row@,
                            mid_pos[b - 1],
                        );
                    }
                } else {
                }
            }

            // --- membership of positions in the final selection ---
            assert(fin_pos.contains(p)) by {
                assert(fin_pos[idxi] == p);
            }
            assert forall|q: int| mid_pos.contains(q) implies fin_pos.contains(q) by {
                let w = choose|w: int| 0 <= w < mid_pos.len() && mid_pos[w] == q;
                if w < idxi {
                    assert(fin_pos[w] == q);
                } else {
                    assert(fin_pos[w + 1] == q);
                }
            }
            assert forall|q: int| fin_pos.contains(q) && q != p implies mid_pos.contains(q) by {
                let w = choose|w: int| 0 <= w < fin_pos.len() && fin_pos[w] == q;
                if w < idxi {
                    assert(mid_pos[w] == q);
                } else if w == idxi {
                    assert(false);
                } else {
                    assert(mid_pos[w - 1] == q);
                }
            }
            if full {
                assert forall|q: int| old_pos.contains(q) && q != popped_pos implies
                    mid_pos.contains(q) by {
                    let w = choose|w: int| 0 <= w < old_pos.len() && old_pos[w] == q;
                    // the popped position stands last; positions are the
                    // same sequence without the last element
                    if w < n - 1 {
                        assert(mid_pos[w] == q);
                    } else {
                        assert(q == popped_pos);
                    }
                }
            }

            // --- while at most k rows were offered, every one stays selected ---
            if self.seen@.len() <= old(self).k {
                assert(old_seen.len() <= old(self).k);
                assert forall|q: int| 0 <= q < self.seen@.len() implies fin_pos.contains(q) by {
                    if q < p {
                        assert(old_pos.contains(q));
                        assert(!full) by {
                            if full {
                                assert(old_inner.len() == old(self).k);
                                assert(old_seen.len() >= old(self).k);
                            }
                        }
                    } else {
                        assert(q == p);
                    }
                }
            }

            // --- dominance: every unselected offered row sorts after every
            // retained row ---
            assert forall|q: int, j: int|
                0 <= q < self.seen@.len() && !fin_pos.contains(q) && 0 <= j
                    < fin_inner.len() implies stable_lt(
                (#[trigger] fin_inner[j]).row@,
                fin_pos[j],
                (#[trigger] self.seen@[q]).key,
                q,
            ) by {
                assert(q != p);
                assert(q < p);
                assert(self.seen@[q] == old_seen[q]);
                assert(!mid_pos.contains(q));
                if full {
                    // q is the popped position or was already unselected
                    if q == popped_pos {
                        // everything now retained sorts before the evicted row
                        if j == idxi {
                            assert(stable_lt(row@, p, prev_row.row@, popped_pos)) by {
                                assert(lex_lt(row@, prev_row.row@));
                            }
                            assert(old(self).row_linked(n - 1, Some(*old(entry))));
                            assert(old_seen[popped_pos].key == prev_row.row@);
                        } else {
                            let jm: int = if j < idxi {
                                j
                            } else {
                                j - 1
                            };
                            assert(stable_lt(
                                old_inner[jm].row@,
                                old_pos[jm],
                                prev_row.row@,
                                popped_pos,
                            ));
                            assert(old(self).row_linked(n - 1, Some(*old(entry))));
                            assert(old_seen[popped_pos].key == prev_row.row@);
                        }
                    } else {
                        assert(!old_pos.contains(q));
                        if j == idxi {
                            // the new row sorts before the evicted row, which
                            // sorts before q
                            assert(stable_lt(
                                prev_row.row@,
                                popped_pos,
                                old_seen[q].key,
                                q,
                            )) by {
                                assert(old_inner[n - 1] == prev_row);
                            }
                            lemma_stable_lt_trans(
                                row@,
                                p,
                                prev_row.row@,
                                popped_pos,
                                old_seen[q].key,
                                q,
                            );
                        } else {
                            let jm: int = if j < idxi {
                                j
                            } else {
                                j - 1
                            };
                            assert(stable_lt(
                                old_inner[jm].row@,
                                old_pos[jm],
                                old_seen[q].key,
                                q,
                            ));
                        }
                    }
                } else {
                    // not full: every earlier position was selected, so no
                    // such q exists
                    assert(old_inner.len() < old(self).k);
                    assert(old_seen.len() == old_inner.len());
                    assert(old_pos.contains(q));
                    assert(false);
                }
            }

            // --- linkage of every final row ---
            if full && prev_row.batch_id != cur.id {
                // the store lost one use of the evicted row's batch
                assert(old(self).row_linked(n - 1, Some(*old(entry))));
                lemma_find_entry(old(self).store.batches@, prev_row.batch_id);
            }
            assert forall|j: int| 0 <= j < fin_inner.len() implies self.row_linked(
                j,
                Some(cur),
            ) by {
                if j == idxi {
                    assert(self.seen@[p] == new_seen_row);
                    assert(self.entry_of(cur.id, Some(cur)) == Some(cur));
                } else {
                    let jm: int = if j < idxi {
                        j
                    } else {
                        j - 1
                    };
                    let r = old_inner[jm];
                    assert(old(self).row_linked(jm, Some(*old(entry))));
                    assert(self.seen@[old_pos[jm]] == old_seen[old_pos[jm]]);
                    if r.batch_id == cur.id {
                        assert(self.entry_of(r.batch_id, Some(cur)) == Some(cur));
                    } else {
                        // the row resolves through the store; the store kept
                        // its entry, with the batch unchanged
                        let oldb = old(self).store.batches@;
                        let i0 = find_entry(oldb, r.batch_id)->Some_0;
                        lemma_find_entry(oldb, r.batch_id);
                        if full && prev_row.batch_id != cur.id {
                            let ip = find_entry(oldb, prev_row.batch_id)->Some_0;
                            lemma_find_entry(oldb, prev_row.batch_id);
                            if r.batch_id == prev_row.batch_id {
                                // another retained row still points into the
                                // evicted row's batch, so it had at least two
                                // uses and was kept
                                assert(oldb[ip].uses == uses_count(old_inner, r.batch_id));
                                assert(uses_count(old_inner, r.batch_id) >= 2) by {
                                    lemma_count_drop_last(old_inner, r.batch_id);
                                    let pr = |t: TopKRow| t.batch_id == r.batch_id;
                                    old_inner.drop_last().lemma_filter_contains(pr, jm);
                                    assert(old_inner.drop_last().filter(pr).contains(
                                        old_inner.drop_last()[jm],
                                    ));
                                }
                                assert(self.store.batches@ == oldb.update(
                                    ip,
                                    RecordBatchEntry {
                                        id: oldb[ip].id,
                                        batch: oldb[ip].batch,
                                        uses: (oldb[ip].uses - 1) as usize,
                                    },
                                ));
                                lemma_find_entry(self.store.batches@, r.batch_id);
                                match find_entry(self.store.batches@, r.batch_id) {
                                    Some(i1) => {
                                        assert(self.store.batches@[i1].batch == oldb[
                                            i1].batch) by {
                                            assert(i1 == ip) by {
                                                assert(forall|w: int|
                                                    0 <= w < oldb.len()
                                                        ==> (#[trigger] self.store.batches@[w]).id
                                                        == oldb[w].id);
                                            }
                                        }
                                    },
                                    None => {
                                        assert(self.store.batches@[ip].id == r.batch_id);
                                        assert(false);
                                    },
                                }
                            } else {
                                // a different batch: its entry is untouched
                                if oldb[ip].uses == 1 {
                                    assert(self.store.batches@ == oldb.remove(ip));
                                    lemma_find_entry(self.store.batches@, r.batch_id);
                                    match find_entry(self.store.batches@, r.batch_id) {
                                        Some(i1) => {
                                            let o1: int = if i1 < ip {
                                                i1
                                            } else {
                                                i1 + 1
                                            };
                                            assert(self.store.batches@[i1] == oldb[o1]);
                                            assert(o1 == i0) by {
                                                lemma_find_entry(oldb, r.batch_id);
                                            }
                                        },
                                        None => {
                                            let w: int = if i0 < ip {
                                                i0
                                            } else {
                                                i0 - 1
                                            };
                                            assert(i0 != ip);
                                            assert(self.store.batches@[w] == oldb[i0]);
                                            assert(false);
                                        },
                                    }
                                } else {
                                    assert(self.store.batches@ == oldb.update(
                                        ip,
                                        RecordBatchEntry {
                                            id: oldb[ip].id,
                                            batch: oldb[ip].batch,
                                            uses: (oldb[ip].uses - 1) as usize,
                                        },
                                    ));
                                    lemma_find_entry(self.store.batches@, r.batch_id);
                                    match find_entry(self.store.batches@, r.batch_id) {
                                        Some(i1) => {
                                            assert(self.store.batches@[i1].id == r.batch_id);
                                            assert(i1 != ip);
                                            assert(self.store.batches@[i1] == oldb[i1]);
                                            assert(i1 == i0) by {
                                                assert(forall|w: int|
                                                    0 <= w < oldb.len()
                                                        ==> (#[trigger] self.store.batches@[w]).id
                                                        == oldb[w].id);
                                            }
                                        },
                                        None => {
                                            assert(self.store.batches@[i0].id == r.batch_id);
                                            assert(false);
                                        },
                                    }
                                }
                            }
                        } else {
                            // the store is unchanged
                            assert(self.store.batches@ == oldb);
                        }
                    }
                }
            }

            // --- use counts stay exact ---
            lemma_count_insert(mid_inner, idxi, new_row, cur.id);
            if full {
                lemma_count_drop_last(old_inner, cur.id);
            }
            assert(cur.uses == uses_count(fin_inner, cur.id));
            assert forall|e: int|
                0 <= e < self.store.batches@.len() implies (#[trigger] self.store.batches@[
            e]).uses == uses_count(fin_inner, self.store.batches@[e].id) by {
                let id = self.store.batches@[e].id;
                assert(id != cur.id) by {
                    if id == cur.id {
                        lemma_find_entry(old(self).store.batches@, cur.id);
                        let oldb = old(self).store.batches@;
                        if full && prev_row.batch_id != cur.id {
                            let ip = find_entry(oldb, prev_row.batch_id)->Some_0;
                            if oldb[ip].uses == 1 {
                                let o1: int = if e < ip {
                                    e
                                } else {
                                    e + 1
                                };
                                assert(self.store.batches@[e] == oldb[o1]);
                            } else {
                                assert(self.store.batches@[e].id == oldb[e].id);
                            }
                        } else {
                            assert(self.store.batches@[e] == oldb[e]);
                        }
                        assert(false);
                    }
                }
                lemma_count_insert(mid_inner, idxi, new_row, id);
                if full {
                    lemma_count_drop_last(old_inner, id);
                }
                let oldb = old(self).store.batches@;
                if full && prev_row.batch_id != cur.id {
                    let ip = find_entry(oldb, prev_row.batch_id)->Some_0;
                    lemma_find_entry(oldb, prev_row.batch_id);
                    if oldb[ip].uses == 1 {
                        let o1: int = if e < ip {
                            e
                        } else {
                            e + 1
                        };
                        assert(self.store.batches@[e] == oldb[o1]);
                        assert(o1 != ip);
                        assert(id != prev_row.batch_id);
                        assert(oldb[o1].uses == uses_count(old_inner, id));
                    } else {
                        if e == ip {
                            assert(id == prev_row.batch_id);
                            assert(self.store.batches@[e].uses == oldb[ip].uses - 1);
                            assert(oldb[ip].uses == uses_count(old_inner, id));
                        } else {
                            assert(self.store.batches@[e] == oldb[e]);
                            assert(id != prev_row.batch_id) by {
                                if id == prev_row.batch_id {
                                    assert(oldb[e].id == oldb[ip].id);
                                }
                            }
                            assert(oldb[e].uses == uses_count(old_inner, id));
                        }
                    }
                } else {
                    assert(self.store.batches@[e] == oldb[e]);
                    assert(oldb[e].uses == uses_count(old_inner, id));
                    if full {
                        assert(prev_row.batch_id == cur.id);
                    }
                }
            }

            // --- the pending entry stays absent from the store ---
            assert(find_entry(self.store.batches@, cur.id) is None) by {
                lemma_find_entry(old(self).store.batches@, cur.id);
                lemma_find_entry(self.store.batches@, cur.id);
                match find_entry(self.store.batches@, cur.id) {
                    Some(i1) => {
                        let oldb = old(self).store.batches@;
                        if full && prev_row.batch_id != cur.id {
                            let ip = find_entry(oldb, prev_row.batch_id)->Some_0;
                            lemma_find_entry(oldb, prev_row.batch_id);
                            if oldb[ip].uses == 1 {
                                let o1: int = if i1 < ip {
                                    i1
                                } else {
                                    i1 + 1
                                };
                                assert(self.store.batches@[i1] == oldb[o1]);
                            } else {
                                assert(self.store.batches@[i1].id == oldb[i1].id);
                            }
                        } else {
                            assert(self.store.batches@[i1] == oldb[i1]);
                        }
                        assert(false);
                    },
                    None => {},
                }
            }
        }

        true
    }
}

impl TopKHeap {
    /// Retain the batch entry created by `register_batch` if any of its
    /// rows was retained; a batch no row points into is dropped.
    pub fn insert_batch_entry(&mut self, entry: RecordBatchEntry)
        requires
            old(self).inv_pending(Some(entry)),
        ensures
            final(self).wf(),
            final(self).seen@ == old(self).seen@,
            final(self).inner@ == old(self).inner@,
            final(self).pos@ == old(self).pos@,
            final(self).k == old(self).k,
            final(self).evictions@ == old(self).evictions@,
            final(self).store.schema@ == old(self).store.schema@,
            final(self).store.next_id == old(self).store.next_id,
    {
        let ghost oldb = self.store.batches@;
        let ghost e = entry;
        self.store.insert(entry);
        proof {
            if e.uses == 0 {
                lemma_count_zero(self.inner@, e.id);
            }
            assert forall|j: int| 0 <= j < self.inner@.len() implies self.row_linked(
                j,
                Option::<RecordBatchEntry>::None,
            ) by {
                assert(old(self).row_linked(j, Some(e)));
                let r = self.inner@[j];
                if r.batch_id == e.id {
                    assert(e.uses > 0) by {
                        let pr = |t: TopKRow| t.batch_id == e.id;
                        self.inner@.lemma_filter_contains(pr, j);
                        assert(self.inner@.filter(pr).contains(self.inner@[j]));
                    }
                    assert(self.store.batches@ == oldb.push(e));
                    lemma_find_entry(self.store.batches@, e.id);
                    lemma_find_entry(oldb, e.id);
                    match find_entry(self.store.batches@, e.id) {
                        Some(i1) => {
                            assert(self.store.batches@[i1].id == e.id);
                            if i1 < oldb.len() {
                                assert(oldb[i1].id == e.id);
                                assert(false);
                            }
                            assert(self.store.batches@[i1] == e);
                        },
                        None => {
                            assert(self.store.batches@[oldb.len() as int].id == e.id);
                            assert(false);
                        },
                    }
                } else {
                    if e.uses > 0 {
                        assert(self.store.batches@ == oldb.push(e));
                        lemma_find_entry(self.store.batches@, r.batch_id);
                        lemma_find_entry(oldb, r.batch_id);
                        let i0 = find_entry(oldb, r.batch_id)->Some_0;
                        match find_entry(self.store.batches@, r.batch_id) {
                            Some(i1) => {
                                assert(self.store.batches@[i1].id == r.batch_id);
                                assert(i1 < oldb.len()) by {
                                    if i1 == oldb.len() {
                                        assert(self.store.batches@[i1] == e);
                                    }
                                }
                                assert(self.store.batches@[i1] == oldb[i1]);
                                assert(i1 == i0);
                            },
                            None => {
                                assert(self.store.batches@[i0].id == r.batch_id);
                                assert(false);
                            },
                        }
                    } else {
                        assert(self.store.batches@ == oldb);
                    }
                }
            }
            if e.uses > 0 {
                assert forall|w: int|
                    0 <= w < self.store.batches@.len() implies (#[trigger] self.store.batches@[
                w]).uses == uses_count(self.inner@, self.store.batches@[w].id) by {
                    if w < oldb.len() {
                        assert(self.store.batches@[w] == oldb[w]);
                    } else {
                        assert(self.store.batches@[w] == e);
                    }
                }
            }
        }
    }

    /// The integer cell of retained row `j` in key column `c`.
    #[verifier::spinoff_prover]
    fn fetch_int_cell(&self, j: usize, c: usize) -> (r: Option<i64>)
        requires
            self.wf(),
            j < self.inner@.len(),
            c < self.store.schema@.len(),
            self.store.schema@[c as int] == DataType::Int64,
        ensures
            (match r {
                Some(v) => Cell::Int(v),
                None => Cell::Null,
            }) == self.seen@[self.pos@[j as int]].cells[c as int],
    {
        proof {
            assert(self.row_linked(j as int, Option::<RecordBatchEntry>::None));
        }
        let row = &self.inner[j];
        match self.store.get(row.batch_id) {
            Some(entry) => {
                proof {
                    lemma_find_entry(self.store.batches@, row.batch_id);
                    let i0 = find_entry(self.store.batches@, row.batch_id)->Some_0;
                    assert(self.store.batches@[i0].batch.wf());
                    assert(self.store.batches@[i0].batch.schema@ == self.store.schema@);
                    assert(entry.batch.row(row.index as int) == self.seen@[self.pos@[
                        j as int]].cells);
                    assert(entry.batch.row(row.index as int)[c as int] == entry.batch.columns@[
                        c as int].cell(row.index as int));
                    assert(entry.batch.columns@[c as int].matches_type_spec(DataType::Int64));
                }
                match &entry.batch.columns[c] {
                    Column::Int64(pc) => {
                        proof {
                            assert(entry.batch.columns@[c as int] == Column::Int64(*pc));
                        }
                        if pc.is_null(row.index) {
                            None
                        } else {
                            Some(pc.value(row.index))
                        }
                    },
                    _ => {
                        proof {
                            assert(false);
                        }
                        None
                    },
                }
            },
            None => {
                proof {
                    assert(false);
                }
                None
            },
        }
    }

    /// The byte-string cell of retained row `j` in key column `c`.
    #[verifier::spinoff_prover]
    fn fetch_bytes_cell(&self, j: usize, c: usize) -> (r: Option<Vec<u8>>)
        requires
            self.wf(),
            j < self.inner@.len(),
            c < self.store.schema@.len(),
            self.store.schema@[c as int] == DataType::Bytes || self.store.schema@[c as int]
                == DataType::BytesView,
        ensures
            (match r {
                Some(v) => Cell::Bytes(v@),
                None => Cell::Null,
            }) == self.seen@[self.pos@[j as int]].cells[c as int],
    {
        proof {
            assert(self.row_linked(j as int, Option::<RecordBatchEntry>::None));
        }
        let row = &self.inner[j];
        match self.store.get(row.batch_id) {
            Some(entry) => {
                proof {
                    lemma_find_entry(self.store.batches@, row.batch_id);
                    let i0 = find_entry(self.store.batches@, row.batch_id)->Some_0;
                    assert(self.store.batches@[i0].batch.wf());
                    assert(self.store.batches@[i0].batch.schema@ == self.store.schema@);
                    assert(entry.batch.row(row.index as int) == self.seen@[self.pos@[
                        j as int]].cells);
                    assert(entry.batch.row(row.index as int)[c as int] == entry.batch.columns@[
                        c as int].cell(row.index as int));
                    assert(entry.batch.columns@[c as int].matches_type_spec(
                        self.store.schema@[c as int],
                    ));
                }
                match &entry.batch.columns[c] {
                    Column::Bytes(bc) => {
                        proof {
                            assert(entry.batch.columns@[c as int] == Column::Bytes(*bc));
                        }
                        if bc.is_null(row.index) {
                            None
                        } else {
                            let v = bc.value(row.index);
                            let mut copy: Vec<u8> = Vec::new();
                            copy.extend_from_slice(v.as_slice());
                            proof {
                                assert(copy@ =~= v@);
                            }
                            Some(copy)
                        }
                    },
                    _ => {
                        proof {
                            assert(false);
                        }
                        None
                    },
                }
            },
            None => {
                proof {
                    assert(false);
                }
                None
            },
        }
    }

    /// Gather one integer output column from the retained rows.
    fn gather_int64(&self, c: usize) -> (r: PrimitiveColumn)
        requires
            self.wf(),
            c < self.store.schema@.len(),
            self.store.schema@[c as int] == DataType::Int64,
        ensures
            r.wf(),
            r.len_spec() == self.inner@.len(),
            forall|j: int|
                0 <= j < self.inner@.len() ==> r.cell(j) == self.seen@[self.pos@[j]].cells[
                    c as int],
    {
        let mut opts: Vec<Option<i64>> = Vec::new();
        let n = self.inner.len();
        let mut j: usize = 0;
        while j < n
            invariant
                0 <= j <= n,
                self.wf(),
                c < self.store.schema@.len(),
                self.store.schema@[c as int] == DataType::Int64,
                n == self.inner@.len(),
                opts@.len() == j,
                forall|q: int|
                    0 <= q < j ==> (match #[trigger] opts@[q] {
                        Some(v) => Cell::Int(v),
                        None => Cell::Null,
                    }) == self.seen@[self.pos@[q]].cells[c as int],
            decreases n - j,
        {
            let cell = self.fetch_int_cell(j, c);
            opts.push(cell);
            j += 1;
        }
        let r = PrimitiveColumn::from_options(opts);
        proof {
            assert forall|q: int| 0 <= q < n implies r.cell(q) == self.seen@[self.pos@[
                q]].cells[c as int] by {}
        }
        r
    }

    /// Gather one byte-string output column from the retained rows.
    fn gather_bytes(&self, c: usize) -> (r: BytesColumn)
        requires
            self.wf(),
            c < self.store.schema@.len(),
            self.store.schema@[c as int] == DataType::Bytes || self.store.schema@[c as int]
                == DataType::BytesView,
        ensures
            r.wf(),
            r.len_spec() == self.inner@.len(),
            forall|j: int|
                0 <= j < self.inner@.len() ==> r.cell(j) == self.seen@[self.pos@[j]].cells[
                    c as int],
    {
        let mut opts: Vec<Option<Vec<u8>>> = Vec::new();
        let n = self.inner.len();
        let mut j: usize = 0;
        while j < n
            invariant
                0 <= j <= n,
                self.wf(),
                c < self.store.schema@.len(),
                self.store.schema@[c as int] == DataType::Bytes || self.store.schema@[c as int]
                    == DataType::BytesView,
                n == self.inner@.len(),
                opts@.len() == j,
                forall|q: int|
                    0 <= q < j ==> (match #[trigger] opts@[q] {
                        Some(v) => Cell::Bytes(v@),
                        None => Cell::Null,
                    }) == self.seen@[self.pos@[q]].cells[c as int],
            decreases n - j,
        {
            let cell = self.fetch_bytes_cell(j, c);
            opts.push(cell);
            j += 1;
        }
        let r = BytesColumn::from_options(opts);
        proof {
            assert forall|q: int| 0 <= q < n implies r.cell(q) == self.seen@[self.pos@[
                q]].cells[c as int] by {}
        }
        r
    }

    /// The boolean cell of retained row `j` in column `c`.
    #[verifier::spinoff_prover]
    fn fetch_bool_cell(&self, j: usize, c: usize) -> (r: Option<bool>)
        requires
            self.wf(),
            j < self.inner@.len(),
            c < self.store.schema@.len(),
            self.store.schema@[c as int] == DataType::Bool,
        ensures
            (match r {
                Some(v) => Cell::Bool(v),
                None => Cell::Null,
            }) == self.seen@[self.pos@[j as int]].cells[c as int],
    {
        proof {
            assert(self.row_linked(j as int, Option::<RecordBatchEntry>::None));
        }
        let row = &self.inner[j];
        match self.store.get(row.batch_id) {
            Some(entry) => {
                proof {
                    lemma_find_entry(self.store.batches@, row.batch_id);
                    let i0 = find_entry(self.store.batches@, row.batch_id)->Some_0;
                    assert(self.store.batches@[i0].batch.wf());
                    assert(self.store.batches@[i0].batch.schema@ == self.store.schema@);
                    assert(entry.batch.row(row.index as int) == self.seen@[self.pos@[
                        j as int]].cells);
                    assert(entry.batch.row(row.index as int)[c as int] == entry.batch.columns@[
                        c as int].cell(row.index as int));
                    assert(entry.batch.columns@[c as int].matches_type_spec(DataType::Bool));
                }
                match &entry.batch.columns[c] {
                    Column::Bool(bc) => {
                        proof {
                            assert(entry.batch.columns@[c as int] == Column::Bool(*bc));
                        }
                        if bc.is_null(row.index) {
                            None
                        } else {
                            Some(bc.value(row.index))
                        }
                    },
                    _ => {
                        proof {
                            assert(false);
                        }
                        None
                    },
                }
            },
            None => {
                proof {
                    assert(false);
                }
                None
            },
        }
    }

    /// Gather one boolean output column from the retained rows.
    fn gather_bool(&self, c: usize) -> (r: crate::data::BoolColumn)
        requires
            self.wf(),
            c < self.store.schema@.len(),
            self.store.schema@[c as int] == DataType::Bool,
        ensures
            r.wf(),
            r.len_spec() == self.inner@.len(),
            forall|j: int|
                0 <= j < self.inner@.len() ==> r.cell(j) == self.seen@[self.pos@[j]].cells[
                    c as int],
    {
        let mut opts: Vec<Option<bool>> = Vec::new();
        let n = self.inner.len();
        let mut j: usize = 0;
        while j < n
            invariant
                0 <= j <= n,
                self.wf(),
                c < self.store.schema@.len(),
                self.store.schema@[c as int] == DataType::Bool,
                n == self.inner@.len(),
                opts@.len() == j,
                forall|q: int|
                    0 <= q < j ==> (match #[trigger] opts@[q] {
                        Some(v) => Cell::Bool(v),
                        None => Cell::Null,
                    }) == self.seen@[self.pos@[q]].cells[c as int],
            decreases n - j,
        {
            let cell = self.fetch_bool_cell(j, c);
            opts.push(cell);
            j += 1;
        }
        let r = crate::data::BoolColumn::from_options(opts);
        proof {
            assert forall|q: int| 0 <= q < n implies r.cell(q) == self.seen@[self.pos@[
                q]].cells[c as int] by {}
        }
        r
    }

    /// The retained rows, smallest first, as a single record batch.
    pub fn emit(&self) -> (r: RecordBatch)
        requires
            self.wf(),
        ensures
            r.wf(),
            r.schema@ == self.store.schema@,
            r.num_rows == self.inner@.len(),
            forall|j: int|
                0 <= j < self.inner@.len() ==> r.row(j) == self.seen@[self.pos@[j]].cells,
    {
        let ncols = self.store.schema.len();
        let nrows = self.inner.len();
        let mut columns: Vec<Column> = Vec::new();
        let mut schema: Vec<DataType> = Vec::new();
        let mut c: usize = 0;
        while c < ncols
            invariant
                0 <= c <= ncols,
                self.wf(),
                ncols == self.store.schema@.len(),
                nrows == self.inner@.len(),
                columns@.len() == c,
                schema@.len() == c,
                forall|w: int| 0 <= w < c ==> schema@[w] == self.store.schema@[w],
                forall|w: int| 0 <= w < c ==> (#[trigger] columns@[w]).wf(),
                forall|w: int| 0 <= w < c ==> (#[trigger] columns@[w]).len_spec() == nrows,
                forall|w: int|
                    0 <= w < c ==> (#[trigger] columns@[w]).matches_type_spec(
                        self.store.schema@[w],
                    ),
                forall|w: int, j: int|
                    0 <= w < c && 0 <= j < nrows ==> (#[trigger] columns@[w].cell(j))
                        == self.seen@[self.pos@[j]].cells[w],
            decreases ncols - c,
        {
            let dt = self.store.schema[c];
            match dt {
                DataType::Int64 => {
                    columns.push(Column::Int64(self.gather_int64(c)));
                },
                DataType::Bytes => {
                    columns.push(Column::Bytes(self.gather_bytes(c)));
                },
                DataType::BytesView => {
                    columns.push(Column::Bytes(self.gather_bytes(c)));
                },
                DataType::Bool => {
                    columns.push(Column::Bool(self.gather_bool(c)));
                },
            }
            schema.push(dt);
            c += 1;
        }
        proof {
            assert(schema@ =~= self.store.schema@);
        }
        let r = RecordBatch { schema, columns, num_rows: nrows };
        proof {
            assert forall|j: int| 0 <= j < nrows implies r.row(j) == self.seen@[self.pos@[
                j]].cells by {
                assert(self.row_linked(j, Option::<RecordBatchEntry>::None));
                assert(self.seen@[self.pos@[j]].cells.len() == r.columns@.len()) by {
                    let row0 = self.inner@[j];
                    lemma_find_entry(self.store.batches@, row0.batch_id);
                }
                assert(r.row(j) =~= self.seen@[self.pos@[j]].cells);
            }
        }
        r
    }

    /// The bytes held by this heap: the owned key bytes plus the retained
    /// batches.
    pub fn size(&self) -> (r: usize)
        ensures
            r as nat == sat_add_spec(self.owned_bytes as nat, self.store.batches_size as nat),
    {
        sat_add(self.owned_bytes, self.store.batches_size)
    }
}

/// The cells of the sort-key columns of row `i`, in key order.
pub open spec fn key_cells(exprs: Seq<SortKey>, batch: RecordBatch, i: int) -> Seq<Cell> {
    Seq::new(exprs.len(), |f: int| batch.columns@[exprs[f].column as int].cell(i))
}

/// The Top-K operator: encodes each input row's sort key, keeps the
/// smallest K rows seen so far, and emits them in sort order.
pub struct TopK {
    pub schema: Vec<DataType>,
    pub batch_size: usize,
    pub expr: Vec<SortKey>,
    pub fields: Vec<SortField>,
    pub heap: TopKHeap,
    pub metrics: TopKMetrics,
    pub reservation: MemoryReservation,
}

impl TopK {
    pub open spec fn wf(&self) -> bool {
        &&& self.heap.wf()
        &&& self.heap.store.schema@ == self.schema@
        &&& self.batch_size >= 1
        &&& self.fields@.len() == self.expr@.len()
        &&& forall|f: int|
            0 <= f < self.expr@.len() ==> (#[trigger] self.expr@[f]).column < self.schema@.len()
        &&& forall|f: int|
            0 <= f < self.expr@.len() ==> (#[trigger] self.fields@[f]) == (SortField {
                data_type: self.schema@[self.expr@[f].column as int],
                options: self.expr@[f].options,
            })
        &&& self.reservation.wf()
    }

    /// The encoded sort key of row `i` of a batch, under this operator's
    /// sort fields.
    pub open spec fn key_of(&self, batch: RecordBatch, i: int) -> Seq<u8> {
        crate::encoder::enc_row(self.fields@, key_cells(self.expr@, batch, i))
    }

    /// Create a Top-K operator that stores the `k` smallest rows as
    /// defined by the sort expressions. Fails exactly when a sort
    /// expression names a column outside the schema.
    pub fn try_new(
        schema: Vec<DataType>,
        expr: Vec<SortKey>,
        k: usize,
        batch_size: usize,
        mem_capacity: usize,
    ) -> (r: Result<Self, ExecError>)
        requires
            k >= 1,
            batch_size >= 1,
        ensures
            r is Ok <==> forall|f: int|
                0 <= f < expr@.len() ==> (#[trigger] expr@[f]).column < schema@.len(),
            r is Err ==> r == Result::<Self, ExecError>::Err(ExecError::InvalidInput),
            r is Ok ==> {
                &&& r->Ok_0.wf()
                &&& r->Ok_0.schema@ == schema@
                &&& r->Ok_0.expr@ == expr@
                &&& r->Ok_0.heap.k == k
                &&& r->Ok_0.batch_size == batch_size
                &&& r->Ok_0.heap.seen@.len() == 0
                &&& r->Ok_0.reservation.capacity == mem_capacity
            },
    {
        let nf = expr.len();
        let mut fields: Vec<SortField> = Vec::new();
        let mut f: usize = 0;
        while f < nf
            invariant
                0 <= f <= nf,
                nf == expr@.len(),
                fields@.len() == f,
                forall|w: int| 0 <= w < f ==> (#[trigger] expr@[w]).column < schema@.len(),
                forall|w: int|
                    0 <= w < f ==> (#[trigger] fields@[w]) == (SortField {
                        data_type: schema@[expr@[w].column as int],
                        options: expr@[w].options,
                    }),
            decreases nf - f,
        {
            let col = expr[f].column;
            if col >= schema.len() {
                return Err(ExecError::InvalidInput);
            }
            fields.push(SortField { data_type: schema[col], options: expr[f].options });
            f += 1;
        }
        let heap = TopKHeap::new(k, duplicate_schema(&schema));
        Ok(
            TopK {
                schema,
                batch_size,
                expr,
                fields,
                heap,
                metrics: TopKMetrics::new(),
                reservation: MemoryReservation::register(mem_capacity),
            },
        )
    }

    /// Insert a batch, remembering every row whose sort key is among the
    /// K smallest seen so far. Fails with invalid input exactly when the
    /// batch schema differs from the operator's; fails with resource
    /// exhaustion exactly when, after the rows were absorbed, the
    /// operator's footprint no longer fits its reservation.
    pub fn insert_batch(&mut self, batch: RecordBatch) -> (r: Result<(), ExecError>)
        requires
            old(self).wf(),
            batch.wf(),
            old(self).heap.store.next_id < u32::MAX,
        ensures
            final(self).wf(),
            final(self).schema@ == old(self).schema@,
            final(self).expr@ == old(self).expr@,
            final(self).fields@ == old(self).fields@,
            final(self).heap.k == old(self).heap.k,
            final(self).batch_size == old(self).batch_size,
            batch.schema@ != old(self).schema@ ==> r == Result::<(), ExecError>::Err(
                ExecError::InvalidInput,
            ) && final(self).heap.seen@ == old(self).heap.seen@
                && final(self).metrics.row_replacements == old(self).metrics.row_replacements,
            final(self).heap.evictions@ >= old(self).heap.evictions@,
            final(self).metrics.row_replacements as nat == crate::data::sat_add64_spec(
                old(self).metrics.row_replacements as nat,
                (final(self).heap.evictions@ - old(self).heap.evictions@) as nat,
            ),
            final(self).metrics.output_rows == old(self).metrics.output_rows,
            batch.schema@ == old(self).schema@ ==> final(self).heap.seen@ == old(
                self,
            ).heap.seen@ + Seq::new(
                batch.num_rows as nat,
                |i: int|
                    SeenRow {
                        key: old(self).key_of(batch, i),
                        batch_id: old(self).heap.store.next_id,
                        index: i as usize,
                        cells: batch.row(i),
                    },
            ),
            batch.schema@ == old(self).schema@ ==> (r is Ok <==> sat_add_spec(
                final(self).heap.owned_bytes as nat,
                final(self).heap.store.batches_size as nat,
            ) <= old(self).reservation.capacity),
            r is Err ==> (r == Result::<(), ExecError>::Err(ExecError::InvalidInput) || r
                == Result::<(), ExecError>::Err(ExecError::ResourcesExhausted)),
    {
        if !schemas_equal(&batch.schema, &self.schema) {
            return Err(ExecError::InvalidInput);
        }
        // project and encode the sort keys
        let nf = self.expr.len();
        let mut key_columns: Vec<Column> = Vec::new();
        let mut f: usize = 0;
        while f < nf
            invariant
                0 <= f <= nf,
                self.wf(),
                batch.wf(),
                batch.schema@ == self.schema@,
                nf == self.expr@.len(),
                key_columns@.len() == f,
                forall|w: int| 0 <= w < f ==> (#[trigger] key_columns@[w]).wf(),
                forall|w: int|
                    0 <= w < f ==> (#[trigger] key_columns@[w]).len_spec() == batch.num_rows,
                forall|w: int|
                    0 <= w < f ==> (#[trigger] key_columns@[w]).matches_type_spec(
                        self.fields@[w].data_type,
                    ),
                forall|w: int, i: int|
                    0 <= w < f && 0 <= i < batch.num_rows ==> (#[trigger] key_columns@[w].cell(i))
                        == batch.columns@[self.expr@[w].column as int].cell(i),
            decreases nf - f,
        {
            let col = self.expr[f].column;
            key_columns.push(batch.columns[col].duplicate());
            f += 1;
        }
        let rows = match crate::encoder::encode_rows(&key_columns, &self.fields, batch.num_rows) {
            Ok(rows) => rows,
            Err(_) => {
                proof {
                    assert(false);
                }
                return Err(ExecError::Internal);
            },
        };
        proof {
            assert forall|i: int| 0 <= i < batch.num_rows implies (#[trigger] rows@[i])@ == old(
                self,
            ).key_of(batch, i) by {
                assert(crate::encoder::row_cells(key_columns@, i) =~= key_cells(
                    self.expr@,
                    batch,
                    i,
                ));
            }
        }
        let num_rows = batch.num_rows;
        let ghost batch_ghost = batch;
        let mut batch_entry = self.heap.register_batch(batch);
        proof {
            lemma_find_entry(self.heap.store.batches@, batch_entry.id);
            match find_entry(self.heap.store.batches@, batch_entry.id) {
                Some(i1) => {
                    assert(self.heap.store.batches@[i1].id < batch_entry.id);
                    assert(false);
                },
                None => {},
            }
            assert forall|j: int|
                0 <= j < self.heap.inner@.len() implies (#[trigger] self.heap.inner@[
            j]).batch_id != batch_entry.id by {
                assert(old(self).heap.row_linked(j, Option::<RecordBatchEntry>::None));
                assert(self.heap.row_linked(j, Option::<RecordBatchEntry>::None)) by {
                    assert(self.heap.inner@ == old(self).heap.inner@);
                    assert(self.heap.pos@ == old(self).heap.pos@);
                    assert(self.heap.seen@ == old(self).heap.seen@);
                    assert(self.heap.store.batches@ == old(self).heap.store.batches@);
                }
                let r = self.heap.inner@[j];
                lemma_find_entry(self.heap.store.batches@, r.batch_id);
                match find_entry(self.heap.store.batches@, r.batch_id) {
                    Some(i2) => {
                        assert(self.heap.store.batches@[i2].id < batch_entry.id);
                    },
                    None => {
                        assert(false);
                    },
                }
            }
            let pr = |t: TopKRow| t.batch_id == batch_entry.id;
            self.heap.inner@.lemma_all_neg_filter_empty(pr);
            assert(uses_count(self.heap.inner@, batch_entry.id) == 0);
            assert forall|j: int|
                0 <= j < self.heap.inner@.len() implies self.heap.row_linked(
                j,
                Some(batch_entry),
            ) by {
                assert(old(self).heap.row_linked(j, Option::<RecordBatchEntry>::None));
                assert(self.heap.inner@[j].batch_id != batch_entry.id);
            }
            assert forall|e: int|
                0 <= e < self.heap.store.batches@.len() implies (
            #[trigger] self.heap.store.batches@[e]).uses == uses_count(
                self.heap.inner@,
                self.heap.store.batches@[e].id,
            ) by {
                assert(old(self).heap.store.batches@[e] == self.heap.store.batches@[e]);
            }
        }
        let ghost seen_before = self.heap.seen@;
        let mut i: usize = 0;
        while i < num_rows
            invariant
                0 <= i <= num_rows,
                self.heap.inv_pending(Some(batch_entry)),
                batch_entry.id == old(self).heap.store.next_id,
                batch_entry.batch == batch_ghost,
                batch_ghost.wf(),
                num_rows == batch_ghost.num_rows,
                rows@.len() == num_rows,
                forall|w: int|
                    0 <= w < num_rows ==> (#[trigger] rows@[w])@ == old(self).key_of(
                        batch_ghost,
                        w,
                    ),
                self.heap.seen@ == seen_before + Seq::new(
                    i as nat,
                    |w: int|
                        SeenRow {
                            key: old(self).key_of(batch_ghost, w),
                            batch_id: old(self).heap.store.next_id,
                            index: w as usize,
                            cells: batch_ghost.row(w),
                        },
                ),
                self.heap.k == old(self).heap.k,
                self.heap.store.schema@ == old(self).heap.store.schema@,
                self.heap.store.next_id == old(self).heap.store.next_id + 1,
                self.schema@ == old(self).schema@,
                self.expr@ == old(self).expr@,
                self.fields@ == old(self).fields@,
                self.batch_size == old(self).batch_size,
                self.metrics.output_rows == old(self).metrics.output_rows,
                self.heap.evictions@ >= old(self).heap.evictions@,
                self.metrics.row_replacements as nat == crate::data::sat_add64_spec(
                    old(self).metrics.row_replacements as nat,
                    (self.heap.evictions@ - old(self).heap.evictions@) as nat,
                ),
                self.reservation == old(self).reservation,
            decreases num_rows - i,
        {
            let ghost pre_seen = self.heap.seen@;
            let was_full = self.heap.inner.len() == self.heap.k;
            let added = self.heap.offer(
                &mut batch_entry,
                &rows[i],
                i,
                Ghost(batch_ghost.row(i as int)),
            );
            if was_full && added {
                // an insertion into a full heap evicted its prior maximum
                if self.metrics.row_replacements < u64::MAX {
                    self.metrics.row_replacements = self.metrics.row_replacements + 1;
                }
            }
            proof {
                assert(self.heap.seen@ =~= seen_before + Seq::new(
                    (i + 1) as nat,
                    |w: int|
                        SeenRow {
                            key: old(self).key_of(batch_ghost, w),
                            batch_id: old(self).heap.store.next_id,
                            index: w as usize,
                            cells: batch_ghost.row(w),
                        },
                ));
            }
            i += 1;
        }
        self.heap.insert_batch_entry(batch_entry);
        // update the memory reservation to the operator's current footprint
        let sz = self.heap.size();
        let r = self.reservation.try_resize(sz);
        match r {
            Ok(()) => Ok(()),
            Err(e) => Err(e),
        }
    }

    /// The top K rows, smallest first, broken into batches of at most the
    /// configured output batch size: every batch before the last holds
    /// exactly that many rows, and an empty heap yields one empty batch
    /// with the output schema. The returned metrics report the emitted
    /// row count on top of the counters gathered so far.
    pub fn emit(self) -> (r: (Vec<RecordBatch>, TopKMetrics))
        requires
            self.wf(),
        ensures
            forall|b: int| 0 <= b < r.0@.len() ==> (#[trigger] r.0@[b]).wf(),
            forall|b: int| 0 <= b < r.0@.len() ==> (#[trigger] r.0@[b]).schema@ == self.schema@,
            forall|b: int|
                0 <= b < r.0@.len() ==> (#[trigger] r.0@[b]).num_rows <= self.batch_size,
            forall|b: int|
                0 <= b < r.0@.len() - 1 ==> (#[trigger] r.0@[b]).num_rows == self.batch_size,
            flat_rows(r.0@) == Seq::new(
                self.heap.inner@.len(),
                |j: int| self.heap.seen@[self.heap.pos@[j]].cells,
            ),
            self.heap.inner@.len() == 0 ==> r.0@.len() == 1 && r.0@[0].num_rows == 0,
            r.1.output_rows as nat == crate::data::sat_add64_spec(
                self.metrics.output_rows as nat,
                self.heap.inner@.len(),
            ),
            r.1.row_replacements == self.metrics.row_replacements,
    {
        let whole = self.heap.emit();
        let ghost target = Seq::new(
            self.heap.inner@.len(),
            |j: int| self.heap.seen@[self.heap.pos@[j]].cells,
        );
        proof {
            assert(whole.rows() =~= target);
        }
        let total = whole.num_rows;
        let mut metrics = self.metrics;
        let grown = total as u64;
        if metrics.output_rows > u64::MAX - grown {
            metrics.output_rows = u64::MAX;
        } else {
            metrics.output_rows = metrics.output_rows + grown;
        }
        let mut out: Vec<RecordBatch> = Vec::new();
        if total == 0 {
            out.push(whole);
            proof {
                assert(out@.drop_last() =~= Seq::<RecordBatch>::empty());
                assert(out@.last() == whole);
                assert(flat_rows(Seq::<RecordBatch>::empty()) =~= Seq::<Seq<Cell>>::empty());
                assert(flat_rows(out@) =~= whole.rows());
            }
            return (out, metrics);
        }
        let mut off: usize = 0;
        while off < total
            invariant
                0 <= off <= total,
                whole.wf(),
                total == whole.num_rows,
                whole.schema@ == self.schema@,
                self.batch_size >= 1,
                forall|b: int| 0 <= b < out@.len() ==> (#[trigger] out@[b]).wf(),
                forall|b: int| 0 <= b < out@.len() ==> (#[trigger] out@[b]).schema@ == self.schema@,
                forall|b: int|
                    0 <= b < out@.len() ==> (#[trigger] out@[b]).num_rows <= self.batch_size,
                forall|b: int|
                    0 <= b < out@.len() ==> (#[trigger] out@[b]).num_rows == self.batch_size || (b
                        == out@.len() - 1 && off == total),
                flat_rows(out@) == whole.rows().take(off as int),
            decreases total - off,
        {
            let remaining = total - off;
            let len = if remaining < self.batch_size {
                remaining
            } else {
                self.batch_size
            };
            let chunk = whole.slice(off, len);
            let ghost pre_out = out@;
            out.push(chunk);
            proof {
                assert(flat_rows(out@) =~= flat_rows(pre_out) + chunk.rows()) by {
                    assert(out@.drop_last() =~= pre_out);
                    assert(out@.last() == chunk);
                }
                assert(chunk.rows() =~= whole.rows().subrange(
                    off as int,
                    off + len,
                ));
                assert(whole.rows().take(off + len) =~= whole.rows().take(off as int)
                    + whole.rows().subrange(off as int, off + len));
            }
            off += len;
        }
        proof {
            assert(whole.rows().take(total as int) =~= whole.rows());
        }
        (out, metrics)
    }
}

/// The rows of a list of batches, concatenated in order.
pub open spec fn flat_rows(batches: Seq<RecordBatch>) -> Seq<Seq<Cell>>
    decreases batches.len(),
{
    if batches.len() == 0 {
        Seq::empty()
    } else {
        flat_rows(batches.drop_last()) + batches.last().rows()
    }
}

/// Whether two schemas are equal.
pub fn schemas_equal(a: &Vec<DataType>, b: &Vec<DataType>) -> (r: bool)
    ensures
        r == (a@ == b@),
{
    if a.len() != b.len() {
        return false;
    }
    let n = a.len();
    let mut i: usize = 0;
    while i < n
        invariant
            0 <= i <= n,
            n == a@.len(),
            n == b@.len(),
            forall|j: int| 0 <= j < i ==> a@[j] == b@[j],
        decreases n - i,
    {
        if a[i] != b[i] {
            return false;
        }
        i += 1;
    }
    proof {
        assert(a@ =~= b@);
    }
    true
}

/// A copy of a schema.
pub fn duplicate_schema(a: &Vec<DataType>) -> (r: Vec<DataType>)
    ensures
        r@ == a@,
{
    let mut out: Vec<DataType> = Vec::new();
    let n = a.len();
    let mut i: usize = 0;
    while i < n
        invariant
            0 <= i <= n,
            n == a@.len(),
            out@.len() == i,
            forall|j: int| 0 <= j < i ==> out@[j] == a@[j],
        decreases n - i,
    {
        out.push(a[i]);
        i += 1;
    }
    proof {
        assert(out@ =~= a@);
    }
    out
}

/// Top-K law: the retained rows are the first `min(K, N)` rows of the
/// stable sort of the N rows offered so far — they are as many as the
/// bound and the input allow, in strictly ascending stable key order, and
/// every offered row that was not retained sorts strictly after every
/// retained row under the stable order (ties resolve to the earlier
/// arrival).
pub proof fn lemma_topk_is_stable_prefix(h: &TopKHeap)
    requires
        h.wf(),
    ensures
        h.inner@.len() == if h.k <= h.seen@.len() {
            h.k as nat
        } else {
            h.seen@.len()
        },
        forall|a: int, b: int|
            0 <= a < b < h.inner@.len() ==> stable_lt(
                (#[trigger] h.inner@[a]).row@,
                h.pos@[a],
                (#[trigger] h.inner@[b]).row@,
                h.pos@[b],
            ),
        forall|j: int|
            0 <= j < h.inner@.len() ==> 0 <= #[trigger] h.pos@[j] < h.seen@.len() && h.inner@[
                j].row@ == h.seen@[h.pos@[j]].key,
        forall|p: int, j: int|
            0 <= p < h.seen@.len() && !h.pos@.contains(p) && 0 <= j < h.inner@.len()
                ==> stable_lt(
                (#[trigger] h.inner@[j]).row@,
                h.pos@[j],
                (#[trigger] h.seen@[p]).key,
                p,
            ),
{
    assert forall|j: int|
        0 <= j < h.inner@.len() implies 0 <= #[trigger] h.pos@[j] < h.seen@.len() && h.inner@[
        j].row@ == h.seen@[h.pos@[j]].key by {
        assert(h.row_linked(j, Option::<RecordBatchEntry>::None));
    }
}

/// Top-K law for small inputs: when no more rows were offered than the
/// heap's bound, every offered row is retained, in sorted order.
pub proof fn lemma_topk_all_rows_when_few(h: &TopKHeap)
    requires
        h.wf(),
        h.seen@.len() <= h.k,
    ensures
        h.inner@.len() == h.seen@.len(),
        forall|p: int| 0 <= p < h.seen@.len() ==> h.pos@.contains(p),
{
}

/// Top-K law for K = 1: the single retained row carries the minimum key,
/// and of the rows carrying that key it is the first that arrived.
pub proof fn lemma_topk_single_is_min(h: &TopKHeap)
    requires
        h.wf(),
        h.k == 1,
        h.seen@.len() >= 1,
    ensures
        h.inner@.len() == 1,
        forall|p: int|
            0 <= p < h.seen@.len() ==> lex_le(h.inner@[0].row@, (#[trigger] h.seen@[p]).key),
        forall|p: int|
            0 <= p < h.seen@.len() && (#[trigger] h.seen@[p]).key == h.inner@[0].row@
                ==> h.pos@[0] <= p,
{
    assert(h.row_linked(0, Option::<RecordBatchEntry>::None));
    assert forall|p: int|
        0 <= p < h.seen@.len() implies lex_le(h.inner@[0].row@, (#[trigger] h.seen@[p]).key)
            && ((h.seen@[p]).key == h.inner@[0].row@ ==> h.pos@[0] <= p) by {
        if h.pos@.contains(p) {
            let w = choose|w: int| 0 <= w < h.pos@.len() && h.pos@[w] == p;
            assert(w == 0);
            assert(h.seen@[p].key == h.inner@[0].row@);
            lemma_lex_trichotomy(h.inner@[0].row@, h.seen@[p].key);
        } else {
            assert(stable_lt(h.inner@[0].row@, h.pos@[0], h.seen@[p].key, p));
            lemma_lex_trichotomy(h.inner@[0].row@, h.seen@[p].key);
        }
    }
}

} // verus!
