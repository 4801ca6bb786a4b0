//! Columnar materialization: consecutive records in chunks of bounded size,
//! each turned into one array per schema column, with a null where a record
//! lacks the field.
use vstd::prelude::*;

use crate::record::Record;
use crate::schema::{names_view, rows_view};

verus! {

/// One cell as text: the value literal, or `None` for a null.
pub type CellView = Option<Seq<char>>;

/// A column batch as values: its row count and its columns in schema order.
pub type BatchView = (nat, Seq<Seq<CellView>>);

/// The cell of record `rec` in column `key`.
pub open spec fn cell(rec: Map<Seq<char>, Seq<char>>, key: Seq<char>) -> CellView {
    if rec.contains_key(key) {
        Some(rec[key])
    } else {
        None
    }
}

pub open spec fn cell_view(o: Option<String>) -> CellView {
    match o {
        Some(s) => Some(s@),
        None => None,
    }
}

/// The batch of the rows `start .. end`.
pub open spec fn batch_of(
    rows: Seq<Map<Seq<char>, Seq<char>>>,
    schema: Seq<Seq<char>>,
    start: int,
    end: int,
) -> BatchView {
    (
        (end - start) as nat,
        Seq::new(
            schema.len(),
            |j: int| Seq::new((end - start) as nat, |i: int| cell(rows[start + i], schema[j])),
        ),
    )
}

/// The batches of the rows from `start` on, `cap` rows each but the last.
pub open spec fn chunked(
    rows: Seq<Map<Seq<char>, Seq<char>>>,
    schema: Seq<Seq<char>>,
    cap: nat,
    start: nat,
) -> Seq<BatchView>
    decreases rows.len() - start,
{
    if cap == 0 || start >= rows.len() {
        seq![]
    } else if start + cap >= rows.len() {
        seq![batch_of(rows, schema, start as int, rows.len() as int)]
    } else {
        seq![batch_of(rows, schema, start as int, (start + cap) as int)] + chunked(rows, schema, cap, start + cap)
    }
}

/// The cells of column `j`, batch after batch.
pub open spec fn column_flat(batches: Seq<BatchView>, j: int) -> Seq<CellView>
    decreases batches.len(),
{
    if batches.len() == 0 {
        seq![]
    } else {
        batches[0].1[j] + column_flat(batches.drop_first(), j)
    }
}

/// The number of rows of all batches.
pub open spec fn total_rows(batches: Seq<BatchView>) -> nat
    decreases batches.len(),
{
    if batches.len() == 0 {
        0
    } else {
        batches[0].0 + total_rows(batches.drop_first())
    }
}

/// The cells of every record in column `key`, in row order.
pub open spec fn column_cells(rows: Seq<Map<Seq<char>, Seq<char>>>, key: Seq<char>) -> Seq<CellView> {
    rows.map_values(|r: Map<Seq<char>, Seq<char>>| cell(r, key))
}

/// The values that are present among `cells`, in order.
pub open spec fn present(cells: Seq<CellView>) -> Seq<Seq<char>>
    decreases cells.len(),
{
    if cells.len() == 0 {
        seq![]
    } else {
        let rest = present(cells.drop_first());
        match cells[0] {
            Some(v) => seq![v] + rest,
            None => rest,
        }
    }
}

/// The values of field `key`, record after record, skipping records without it:
/// what a left fold over the records sees of that field.
pub open spec fn field_values(rows: Seq<Map<Seq<char>, Seq<char>>>, key: Seq<char>) -> Seq<Seq<char>>
    decreases rows.len(),
{
    if rows.len() == 0 {
        seq![]
    } else {
        let rest = field_values(rows.drop_first(), key);
        if rows[0].contains_key(key) {
            seq![rows[0][key]] + rest
        } else {
            rest
        }
    }
}

/// The batches from `start` on hold every row from `start` on.
pub proof fn lemma_chunked_rows(
    rows: Seq<Map<Seq<char>, Seq<char>>>,
    schema: Seq<Seq<char>>,
    cap: nat,
    start: nat,
)
    requires
        cap > 0,
        start <= rows.len(),
    ensures
        total_rows(chunked(rows, schema, cap, start)) == rows.len() - start,
    decreases rows.len() - start,
{
    let c = chunked(rows, schema, cap, start);
    if start < rows.len() {
        if start + cap >= rows.len() {
            assert(c.drop_first() =~= Seq::<BatchView>::empty());
            assert(total_rows(c.drop_first()) == 0);
        } else {
            assert(c.drop_first() =~= chunked(rows, schema, cap, start + cap));
            lemma_chunked_rows(rows, schema, cap, start + cap);
        }
        assert(total_rows(c) == c[0].0 + total_rows(c.drop_first()));
    }
}

/// Reading column `j` back across the batches from `start` on gives the
/// column's cell of every record from `start` on, in row order.
pub proof fn lemma_chunked_column(
    rows: Seq<Map<Seq<char>, Seq<char>>>,
    schema: Seq<Seq<char>>,
    cap: nat,
    start: nat,
    j: int,
)
    requires
        cap > 0,
        start <= rows.len(),
        0 <= j < schema.len(),
    ensures
        column_flat(chunked(rows, schema, cap, start), j) == column_cells(rows, schema[j]).skip(
            start as int,
        ),
    decreases rows.len() - start,
{
    let c = chunked(rows, schema, cap, start);
    let cells = column_cells(rows, schema[j]);
    if start == rows.len() {
        assert(cells.skip(start as int) =~= Seq::<CellView>::empty());
    } else if start + cap >= rows.len() {
        assert(c.drop_first() =~= Seq::<BatchView>::empty());
        assert(column_flat(c.drop_first(), j) == Seq::<CellView>::empty());
        assert(column_flat(c, j) == c[0].1[j] + column_flat(c.drop_first(), j));
        assert(cells.skip(start as int) =~= c[0].1[j] + Seq::<CellView>::empty());
    } else {
        assert(c.drop_first() =~= chunked(rows, schema, cap, start + cap));
        lemma_chunked_column(rows, schema, cap, start + cap, j);
        assert(column_flat(c, j) == c[0].1[j] + column_flat(c.drop_first(), j));
        assert(cells.skip(start as int) =~= c[0].1[j] + cells.skip((start + cap) as int));
    }
}

/// Chunk size is a tuning knob only: with any two capacities, every column
/// reads back the same cells in the same order, and the batches hold the same
/// number of rows.
pub proof fn lemma_capacity_independent(
    rows: Seq<Map<Seq<char>, Seq<char>>>,
    schema: Seq<Seq<char>>,
    cap1: nat,
    cap2: nat,
)
    requires
        cap1 > 0,
        cap2 > 0,
    ensures
        total_rows(chunked(rows, schema, cap1, 0)) == total_rows(chunked(rows, schema, cap2, 0)),
        forall|j: int|
            0 <= j < schema.len() ==> column_flat(#[trigger] chunked(rows, schema, cap1, 0), j)
                == column_flat(chunked(rows, schema, cap2, 0), j),
{
    lemma_chunked_rows(rows, schema, cap1, 0);
    lemma_chunked_rows(rows, schema, cap2, 0);
    assert forall|j: int| 0 <= j < schema.len() implies column_flat(
        #[trigger] chunked(rows, schema, cap1, 0),
        j,
    ) == column_flat(chunked(rows, schema, cap2, 0), j) by {
        lemma_chunked_column(rows, schema, cap1, 0, j);
        lemma_chunked_column(rows, schema, cap2, 0, j);
    }
}

proof fn lemma_present_cells(rows: Seq<Map<Seq<char>, Seq<char>>>, key: Seq<char>)
    ensures
        present(column_cells(rows, key)) == field_values(rows, key),
    decreases rows.len(),
{
    if rows.len() > 0 {
        assert(column_cells(rows, key).drop_first() =~= column_cells(rows.drop_first(), key));
        lemma_present_cells(rows.drop_first(), key);
    }
}

/// Round trip: the values present in a materialized column, read back batch
/// after batch, are the values of that field record after record.
pub proof fn lemma_column_round_trip(
    rows: Seq<Map<Seq<char>, Seq<char>>>,
    schema: Seq<Seq<char>>,
    cap: nat,
    j: int,
)
    requires
        cap > 0,
        0 <= j < schema.len(),
    ensures
        present(column_flat(chunked(rows, schema, cap, 0), j)) == field_values(rows, schema[j]),
{
    lemma_chunked_column(rows, schema, cap, 0, j);
    assert(column_cells(rows, schema[j]).skip(0) =~= column_cells(rows, schema[j]));
    lemma_present_cells(rows, schema[j]);
}

/// One chunk of rows as columns.
pub struct ColumnBatch {
    /// The number of rows.
    pub num_rows: usize,
    /// One array per schema column, in schema order, each `num_rows` long.
    pub columns: Vec<Vec<Option<String>>>,
}

impl View for ColumnBatch {
    type V = BatchView;

    open spec fn view(&self) -> BatchView {
        (
            self.num_rows as nat,
            self.columns@.map_values(
                |c: Vec<Option<String>>| c@.map_values(|o: Option<String>| cell_view(o)),
            ),
        )
    }
}

pub open spec fn batches_view(b: Seq<ColumnBatch>) -> Seq<BatchView> {
    b.map_values(|x: ColumnBatch| x@)
}

/// The batch of the rows `start .. end` under `schema`.
pub fn build_batch(rows: &[Record], schema: &[String], start: usize, end: usize) -> (r: ColumnBatch)
    requires
        start <= end <= rows.len(),
    ensures
        r@ == batch_of(rows_view(rows@), names_view(schema@), start as int, end as int),
{
    let ghost rv = rows_view(rows@);
    let ghost sv = names_view(schema@);
    let mut columns: Vec<Vec<Option<String>>> = Vec::new();
    for j in 0..schema.len()
        invariant
            start <= end <= rows.len(),
            rv == rows_view(rows@),
            sv == names_view(schema@),
            columns@.len() == j,
            forall|k: int|
                0 <= k < j ==> (#[trigger] columns@[k])@.map_values(|o: Option<String>| cell_view(o))
                    == batch_of(rv, sv, start as int, end as int).1[k],
    {
        let key = schema[j].as_str();
        let mut col: Vec<Option<String>> = Vec::new();
        for i in start..end
            invariant
                start <= end <= rows.len(),
                rv == rows_view(rows@),
                key@ == sv[j as int],
                col@.len() == i - start,
                forall|k: int|
                    0 <= k < i - start ==> cell_view(#[trigger] col@[k]) == cell(
                        rv[start + k],
                        sv[j as int],
                    ),
        {
            let c = match rows[i].get(key) {
                Some(v) => Some(v.clone()),
                None => None,
            };
            col.push(c);
        }
        let ghost cv = col@.map_values(|o: Option<String>| cell_view(o));
        assert(cv =~= batch_of(rv, sv, start as int, end as int).1[j as int]);
        columns.push(col);
    }
    let r = ColumnBatch { num_rows: end - start, columns };
    assert(r@.1 =~= batch_of(rv, sv, start as int, end as int).1);
    r
}

/// The records as column batches under `schema`: consecutive chunks of
/// `chunk_capacity` rows (the last may be shorter), each with one array per
/// schema column holding a record's value literal for that name, or `None`
/// where the record lacks it.
pub fn materialize(rows: &[Record], schema: &[String], chunk_capacity: usize) -> (r: Vec<ColumnBatch>)
    requires
        chunk_capacity > 0,
    ensures
        batches_view(r@) == chunked(rows_view(rows@), names_view(schema@), chunk_capacity as nat, 0),
{
    let ghost rv = rows_view(rows@);
    let ghost sv = names_view(schema@);
    let ghost cap = chunk_capacity as nat;
    let mut out: Vec<ColumnBatch> = Vec::new();
    let mut start: usize = 0;
    assert(batches_view(out@) + chunked(rv, sv, cap, 0) =~= chunked(rv, sv, cap, 0));
    while start < rows.len()
        invariant
            chunk_capacity > 0,
            start <= rows.len(),
            rv == rows_view(rows@),
            sv == names_view(schema@),
            cap == chunk_capacity as nat,
            batches_view(out@) + chunked(rv, sv, cap, start as nat) == chunked(rv, sv, cap, 0),
        decreases rows.len() - start,
    {
        let end = if rows.len() - start > chunk_capacity {
            start + chunk_capacity
        } else {
            rows.len()
        };
        let b = build_batch(rows, schema, start, end);
        let ghost before = batches_view(out@);
        out.push(b);
        proof {
            let rest = chunked(rv, sv, cap, start as nat);
            assert(rest[0] == b@);
            assert(batches_view(out@) =~= before.push(b@));
            if end == rows.len() {
                assert(chunked(rv, sv, cap, end as nat) =~= Seq::<BatchView>::empty());
            }
            assert(rest =~= seq![b@] + chunked(rv, sv, cap, end as nat));
            assert(batches_view(out@) + chunked(rv, sv, cap, end as nat) =~= before + rest);
        }
        start = end;
    }
    assert(chunked(rv, sv, cap, start as nat) =~= Seq::<BatchView>::empty());
    assert(batches_view(out@) =~= batches_view(out@) + chunked(rv, sv, cap, start as nat));
    out
}

/// The batches are the consecutive blocks of `cap` rows: batch `b` holds the
/// rows from `b * cap` up to the next multiple of `cap` or the end.
pub proof fn lemma_chunked_blocks(
    rows: Seq<Map<Seq<char>, Seq<char>>>,
    schema: Seq<Seq<char>>,
    cap: nat,
    start: nat,
    b: int,
)
    requires
        cap > 0,
        start <= rows.len(),
        0 <= b,
        start + b * cap < rows.len(),
    ensures
        b < chunked(rows, schema, cap, start).len(),
        chunked(rows, schema, cap, start)[b] == batch_of(
            rows,
            schema,
            start + b * cap,
            if start + (b + 1) * cap < rows.len() { start + (b + 1) * cap } else { rows.len() as int },
        ),
    decreases b,
{
    let c = chunked(rows, schema, cap, start);
    assert((b + 1) * cap == b * cap + cap) by (nonlinear_arith);
    if b > 0 {
        assert(b * cap == (b - 1) * cap + cap) by (nonlinear_arith);
        assert(start + cap < rows.len()) by (nonlinear_arith)
            requires
                start + b * cap < rows.len(),
                b >= 1,
                cap > 0,
        ;
        assert(c.drop_first() =~= chunked(rows, schema, cap, start + cap));
        lemma_chunked_blocks(rows, schema, cap, start + cap, b - 1);
        assert(c[b] == c.drop_first()[b - 1]);
    } else {
        assert(b * cap == 0) by (nonlinear_arith)
            requires
                b == 0,
        ;
    }
}

/// A batch reads only its own rows: rows appended later do not change it.
pub proof fn lemma_batch_of_prefix(
    rows: Seq<Map<Seq<char>, Seq<char>>>,
    more: Seq<Map<Seq<char>, Seq<char>>>,
    schema: Seq<Seq<char>>,
    start: int,
    end: int,
)
    requires
        0 <= start <= end <= rows.len(),
    ensures
        batch_of(rows + more, schema, start, end) == batch_of(rows, schema, start, end),
{
    let a = batch_of(rows + more, schema, start, end);
    let b = batch_of(rows, schema, start, end);
    assert forall|j: int| 0 <= j < schema.len() implies a.1[j] == b.1[j] by {
        assert forall|i: int| 0 <= i < end - start implies a.1[j][i] == b.1[j][i] by {
            assert((rows + more)[start + i] == rows[start + i]);
        }
        assert(a.1[j] =~= b.1[j]);
    }
    assert(a.1 =~= b.1);
}

/// Rows waiting to become a batch, for writing a source of any length in
/// batches of bounded size as its lines are read.
pub struct ChunkBuffer {
    capacity: usize,
    pending: Vec<Record>,
    seen: Ghost<Seq<Map<Seq<char>, Seq<char>>>>,
    start: Ghost<nat>,
}

impl ChunkBuffer {
    /// The rows pending are the rows seen after the first `start()`, fewer
    /// than the capacity.
    pub closed spec fn wf(&self) -> bool {
        &&& self.capacity > 0
        &&& self.pending@.len() < self.capacity
        &&& self.seen@.len() == self.start@ + self.pending@.len()
        &&& rows_view(self.pending@) == self.seen@.skip(self.start@ as int)
    }

    /// Every row pushed so far, in order.
    pub closed spec fn seen(&self) -> Seq<Map<Seq<char>, Seq<char>>> {
        self.seen@
    }

    /// The number of rows already handed out in batches.
    pub closed spec fn start(&self) -> nat {
        self.start@
    }

    pub closed spec fn capacity(&self) -> nat {
        self.capacity as nat
    }

    /// An empty buffer for batches of `capacity` rows.
    pub fn new(capacity: usize) -> (r: Self)
        requires
            capacity > 0,
        ensures
            r.wf(),
            r.seen() == Seq::<Map<Seq<char>, Seq<char>>>::empty(),
            r.start() == 0,
            r.capacity() == capacity,
    {
        let r = ChunkBuffer { capacity, pending: Vec::new(), seen: Ghost(Seq::empty()), start: Ghost(0) };
        assert(rows_view(r.pending@) =~= r.seen@.skip(0));
        r
    }

    /// Adds the next row; when that fills a batch, hands it out under `schema`.
    pub fn push(&mut self, rec: Record, schema: &[String]) -> (r: Option<ColumnBatch>)
        requires
            old(self).wf(),
        ensures
            final(self).wf(),
            final(self).capacity() == old(self).capacity(),
            final(self).seen() == old(self).seen().push(rec@),
            r is Some <==> old(self).seen().len() + 1 == old(self).start() + old(self).capacity(),
            r is Some ==> final(self).start() == final(self).seen().len() && r->0@ == batch_of(
                final(self).seen(),
                names_view(schema@),
                old(self).start() as int,
                final(self).seen().len() as int,
            ),
            r is None ==> final(self).start() == old(self).start(),
    {
        let ghost old_seen = self.seen@;
        let ghost start = self.start@ as int;
        let ghost rv = rec@;
        let ghost old_pending = rows_view(self.pending@);
        assert(old_pending == old_seen.skip(start));
        self.pending.push(rec);
        self.seen = Ghost(old_seen.push(rv));
        assert(rows_view(self.pending@) =~= old_pending.push(rv));
        assert(old_seen.push(rv).skip(start) =~= old_seen.skip(start).push(rv));
        assert(rows_view(self.pending@) =~= self.seen@.skip(start));
        if self.pending.len() == self.capacity {
            let n = self.pending.len();
            let batch = build_batch(self.pending.as_slice(), schema, 0, n);
            proof {
                let pv = rows_view(self.pending@);
                let sv = names_view(schema@);
                let a = batch_of(pv, sv, 0, n as int);
                let b = batch_of(self.seen@, sv, start, self.seen@.len() as int);
                assert forall|j: int| 0 <= j < sv.len() implies a.1[j] == b.1[j] by {
                    assert forall|i: int| 0 <= i < n implies a.1[j][i] == b.1[j][i] by {
                        assert(pv[i] == self.seen@.skip(start)[i]);
                    }
                    assert(a.1[j] =~= b.1[j]);
                }
                assert(a.1 =~= b.1);
            }
            self.pending = Vec::new();
            self.start = Ghost(self.seen@.len());
            assert(rows_view(self.pending@) =~= self.seen@.skip(self.start@ as int));
            Some(batch)
        } else {
            None
        }
    }

    /// Hands out the rows still pending, if any, as the last batch under `schema`.
    pub fn finish(self, schema: &[String]) -> (r: Option<ColumnBatch>)
        requires
            self.wf(),
        ensures
            r is Some <==> self.start() < self.seen().len(),
            r is Some ==> r->0@ == batch_of(
                self.seen(),
                names_view(schema@),
                self.start() as int,
                self.seen().len() as int,
            ),
    {
        if self.pending.len() == 0 {
            return None;
        }
        let n = self.pending.len();
        let batch = build_batch(self.pending.as_slice(), schema, 0, n);
        proof {
            let start = self.start@ as int;
            let pv = rows_view(self.pending@);
            let sv = names_view(schema@);
            let a = batch_of(pv, sv, 0, n as int);
            let b = batch_of(self.seen@, sv, start, self.seen@.len() as int);
            assert forall|j: int| 0 <= j < sv.len() implies a.1[j] == b.1[j] by {
                assert forall|i: int| 0 <= i < n implies a.1[j][i] == b.1[j][i] by {
                    assert(pv[i] == self.seen@.skip(start)[i]);
                }
                assert(a.1[j] =~= b.1[j]);
            }
            assert(a.1 =~= b.1);
        }
        Some(batch)
    }
}

} // verus!
