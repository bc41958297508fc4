//! Batches of rows and the operations that a join gathers its output with.
//!
//! A column is held as a list of values of any copyable type: a value is only moved, never looked at.
use std::sync::Arc;
use vstd::prelude::*;

use crate::error::{DaftError, ErrorView};
use crate::schema::{Field, Schema};
use crate::text::{same_str, texts};

verus! {

/// Rows of values, held column by column.
#[derive(Debug)]
pub struct RecordBatch<T> {
    pub schema: Schema,
    pub columns: Vec<Vec<T>>,
    pub num_rows: usize,
}

/// The fields, columns and row count of a batch.
#[verifier::ext_equal]
pub struct BatchView<T> {
    pub fields: Seq<Field>,
    pub columns: Seq<Seq<T>>,
    pub rows: nat,
}

impl<T> BatchView<T> {
    /// There is one column per field, and every column has a value per row.
    pub open spec fn wf(self) -> bool {
        &&& self.columns.len() == self.fields.len()
        &&& forall|c: int|
            0 <= c < self.columns.len() ==> (#[trigger] self.columns[c]).len() == self.rows
    }

    /// The rows at the given positions, in that order.
    pub open spec fn take(self, idx: Seq<int>) -> BatchView<T> {
        BatchView {
            fields: self.fields,
            columns: self.columns.map_values(
                |col: Seq<T>| Seq::new(idx.len(), |m: int| col[idx[m]]),
            ),
            rows: idx.len(),
        }
    }

    /// The position of the first column of that name.
    pub open spec fn index_of(self, name: Seq<char>) -> Option<int>
        decreases self.fields.len(),
    {
        field_position(self.fields, name)
    }

    /// The columns of the given names, in that order; or the first name that is not there.
    pub open spec fn select(self, names: Seq<Seq<char>>) -> Result<BatchView<T>, ErrorView>
        decreases names.len(),
    {
        if names.len() == 0 {
            Ok(BatchView { fields: Seq::empty(), columns: Seq::empty(), rows: self.rows })
        } else {
            match self.select(names.drop_last()) {
                Err(e) => Err(e),
                Ok(b) => match self.index_of(names.last()) {
                    None => Err(ErrorView::FieldNotFound(names.last())),
                    Some(c) => Ok(
                        BatchView {
                            fields: b.fields.push(self.fields[c]),
                            columns: b.columns.push(self.columns[c]),
                            rows: b.rows,
                        },
                    ),
                },
            }
        }
    }

    /// The columns of this batch followed by those of another.
    pub open spec fn union(self, other: BatchView<T>) -> BatchView<T> {
        BatchView {
            fields: self.fields + other.fields,
            columns: self.columns + other.columns,
            rows: self.rows,
        }
    }
}

/// The position of the first field of that name.
pub open spec fn field_position(fields: Seq<Field>, name: Seq<char>) -> Option<int>
    decreases fields.len(),
{
    if fields.len() == 0 {
        None
    } else if field_position(fields.drop_last(), name) is Some {
        field_position(fields.drop_last(), name)
    } else if fields.last().name@ == name {
        Some(fields.len() - 1)
    } else {
        None
    }
}

proof fn field_position_stays(fields: Seq<Field>, name: Seq<char>, i: int)
    requires
        0 <= i <= fields.len(),
        field_position(fields.take(i), name) is Some,
    ensures
        field_position(fields, name) == field_position(fields.take(i), name),
    decreases fields.len(),
{
    if i < fields.len() {
        assert(fields.drop_last().take(i) =~= fields.take(i));
        field_position_stays(fields.drop_last(), name, i);
    } else {
        assert(fields.take(i) =~= fields);
    }
}

pub(crate) proof fn field_position_in_range(fields: Seq<Field>, name: Seq<char>)
    ensures
        field_position(fields, name) matches Some(c) ==> 0 <= c < fields.len()
            && fields[c].name@ == name,
    decreases fields.len(),
{
    if fields.len() > 0 {
        field_position_in_range(fields.drop_last(), name);
    }
}

impl<T> View for RecordBatch<T> {
    type V = BatchView<T>;

    open spec fn view(&self) -> BatchView<T> {
        BatchView {
            fields: self.schema.fields@,
            columns: self.columns@.map_values(|c: Vec<T>| c@),
            rows: self.num_rows as nat,
        }
    }
}

/// The views of the batches.
pub open spec fn views<T>(tables: Seq<RecordBatch<T>>) -> Seq<BatchView<T>> {
    tables.map_values(|t: RecordBatch<T>| t@)
}

/// The outcome of an operation, seen as its value or error.
pub open spec fn batch_result<T>(r: Result<RecordBatch<T>, DaftError>) -> Result<
    BatchView<T>,
    ErrorView,
> {
    match r {
        Ok(b) => Ok(b@),
        Err(e) => Err(e@),
    }
}

fn copy_fields(fields: &Vec<Field>) -> (r: Vec<Field>)
    ensures
        r@ == fields@,
{
    let mut out: Vec<Field> = Vec::new();
    let mut i: usize = 0;
    while i < fields.len()
        invariant
            i <= fields.len(),
            out@ == fields@.take(i as int),
        decreases fields.len() - i,
    {
        out.push(fields[i].clone());
        i = i + 1;
        assert(out@ =~= fields@.take(i as int));
    }
    assert(out@ =~= fields@);
    out
}

fn copy_column<T: Copy>(col: &Vec<T>) -> (r: Vec<T>)
    ensures
        r@ == col@,
{
    let mut out: Vec<T> = Vec::new();
    let mut i: usize = 0;
    while i < col.len()
        invariant
            i <= col.len(),
            out@ == col@.take(i as int),
        decreases col.len() - i,
    {
        out.push(col[i]);
        i = i + 1;
        assert(out@ =~= col@.take(i as int));
    }
    assert(out@ =~= col@);
    out
}

fn take_column<T: Copy>(col: &Vec<T>, idx: &Vec<u64>) -> (r: Vec<T>)
    requires
        forall|m: int| 0 <= m < idx@.len() ==> (#[trigger] idx@[m]) < col@.len(),
    ensures
        r@ == Seq::new(idx@.len(), |m: int| col@[idx@[m] as int]),
{
    let mut out: Vec<T> = Vec::new();
    let mut i: usize = 0;
    while i < idx.len()
        invariant
            i <= idx.len(),
            out@.len() == i,
            forall|m: int| 0 <= m < idx@.len() ==> (#[trigger] idx@[m]) < col@.len(),
            forall|m: int| 0 <= m < i ==> out@[m] == col@[#[trigger] idx@[m] as int],
        decreases idx.len() - i,
    {
        assert(idx@[i as int] < col.len());
        out.push(col[idx[i] as usize]);
        i = i + 1;
    }
    assert(out@ =~= Seq::new(idx@.len(), |m: int| col@[idx@[m] as int]));
    out
}

impl<T: Copy> RecordBatch<T> {
    /// A batch from its columns, one per field of the schema, with a value per row each.
    pub fn new(schema: Schema, columns: Vec<Vec<T>>, num_rows: usize) -> (r: RecordBatch<T>)
        requires
            columns@.len() == schema.width(),
            forall|c: int| 0 <= c < columns@.len() ==> (#[trigger] columns@[c])@.len() == num_rows,
        ensures
            r == (RecordBatch { schema, columns, num_rows }),
            r@.wf(),
    {
        RecordBatch { schema, columns, num_rows }
    }

    /// The number of rows.
    pub fn len(&self) -> (r: usize)
        ensures
            r == self@.rows,
    {
        self.num_rows
    }

    /// The rows at the given positions, in that order.
    pub fn take(&self, idx: &Vec<u64>) -> (r: RecordBatch<T>)
        requires
            self@.wf(),
            forall|m: int| 0 <= m < idx@.len() ==> (#[trigger] idx@[m]) < self@.rows,
        ensures
            r@ == self@.take(idx@.map_values(|i: u64| i as int)),
            r@.wf(),
    {
        let ghost picks = idx@.map_values(|i: u64| i as int);
        let ghost expected = self@.take(picks).columns;
        let mut columns: Vec<Vec<T>> = Vec::new();
        let mut c: usize = 0;
        while c < self.columns.len()
            invariant
                c <= self.columns.len(),
                self@.wf(),
                picks == idx@.map_values(|i: u64| i as int),
                expected == self@.take(picks).columns,
                forall|m: int| 0 <= m < idx@.len() ==> (#[trigger] idx@[m]) < self@.rows,
                columns@.len() == c,
                forall|d: int| 0 <= d < c ==> (#[trigger] columns@[d])@ == expected[d],
            decreases self.columns.len() - c,
        {
            assert(self@.columns[c as int] == self.columns@[c as int]@);
            columns.push(take_column(&self.columns[c], idx));
            assert(columns@[c as int]@ =~= expected[c as int]);
            c = c + 1;
        }
        let r = RecordBatch {
            schema: Schema::new(copy_fields(&self.schema.fields)),
            columns,
            num_rows: idx.len(),
        };
        assert(r@.columns =~= expected);
        r
    }

    /// The position of the first column of that name.
    fn position(&self, name: &str) -> (r: Option<usize>)
        ensures
            match r {
                Some(c) => self@.index_of(name@) == Some(c as int),
                None => self@.index_of(name@) is None,
            },
    {
        let ghost fields = self.schema.fields@;
        let mut c: usize = 0;
        assert(fields.take(0) =~= Seq::empty());
        while c < self.schema.fields.len()
            invariant
                c <= self.schema.fields.len(),
                fields == self.schema.fields@,
                field_position(fields.take(c as int), name@) is None,
            decreases self.schema.fields.len() - c,
        {
            proof {
                assert(fields.take(c + 1).drop_last() =~= fields.take(c as int));
                assert(fields.take(c + 1).last() == fields[c as int]);
            }
            if same_str(&self.schema.fields[c].name, name) {
                proof {
                    field_position_stays(fields, name@, c + 1);
                }
                return Some(c);
            }
            c = c + 1;
        }
        assert(fields.take(c as int) =~= fields);
        None
    }

    /// The columns of this batch followed by those of another with the same number of rows.
    pub fn union(&self, other: &RecordBatch<T>) -> (r: RecordBatch<T>)
        requires
            self@.wf(),
            other@.wf(),
            self@.rows == other@.rows,
        ensures
            r@ == self@.union(other@),
            r@.wf(),
    {
        let mut fields = copy_fields(&self.schema.fields);
        let mut more_fields = copy_fields(&other.schema.fields);
        fields.append(&mut more_fields);
        let mut columns: Vec<Vec<T>> = Vec::new();
        let ghost expected = self@.union(other@).columns;
        let mut c: usize = 0;
        while c < self.columns.len()
            invariant
                c <= self.columns.len(),
                expected == self@.union(other@).columns,
                columns@.len() == c,
                forall|d: int| 0 <= d < c ==> (#[trigger] columns@[d])@ == expected[d],
            decreases self.columns.len() - c,
        {
            columns.push(copy_column(&self.columns[c]));
            assert(expected[c as int] == self.columns@[c as int]@);
            c = c + 1;
        }
        let mut k: usize = 0;
        while k < other.columns.len()
            invariant
                k <= other.columns.len(),
                expected == self@.union(other@).columns,
                columns@.len() == self.columns@.len() + k,
                forall|d: int|
                    0 <= d < self.columns@.len() + k ==> (#[trigger] columns@[d])@ == expected[d],
            decreases other.columns.len() - k,
        {
            columns.push(copy_column(&other.columns[k]));
            assert(expected[self.columns@.len() + k] == other.columns@[k as int]@);
            k = k + 1;
        }
        let r = RecordBatch { schema: Schema::new(fields), columns, num_rows: self.num_rows };
        proof {
            assert(r@.columns =~= expected);
            assert(r@.fields =~= self@.union(other@).fields);
            assert forall|c: int| 0 <= c < r@.columns.len() implies (
            #[trigger] r@.columns[c]).len() == r@.rows by {
                if c < self@.columns.len() {
                    assert(r@.columns[c] == self@.columns[c]);
                } else {
                    assert(r@.columns[c] == other@.columns[c - self@.columns.len()]);
                }
            }
        }
        r
    }
}

/// A selection that was reached fails or succeeds for the whole list as for the prefix that failed.
proof fn select_stops<T>(batch: BatchView<T>, names: Seq<Seq<char>>, i: int)
    requires
        0 <= i <= names.len(),
        batch.select(names.take(i)) is Err,
    ensures
        batch.select(names) == batch.select(names.take(i)),
    decreases names.len(),
{
    if i < names.len() {
        assert(names.drop_last().take(i) =~= names.take(i));
        select_stops(batch, names.drop_last(), i);
    } else {
        assert(names.take(i) =~= names);
    }
}

/// The columns of the given names, in that order.
pub fn get_columns_by_name<T: Copy>(batch: &RecordBatch<T>, names: &Vec<String>) -> (r: Result<
    RecordBatch<T>,
    DaftError,
>)
    requires
        batch@.wf(),
    ensures
        batch_result(r) == batch@.select(texts(names@)),
        r matches Ok(b) ==> b@.wf() && b@.rows == batch@.rows,
{
    let ghost all = texts(names@);
    let mut fields: Vec<Field> = Vec::new();
    let mut columns: Vec<Vec<T>> = Vec::new();
    let mut i: usize = 0;
    assert(all.take(0) =~= Seq::empty());
    assert(columns@.map_values(|c: Vec<T>| c@) =~= Seq::<Seq<T>>::empty());
    while i < names.len()
        invariant
            i <= names.len(),
            all == texts(names@),
            batch@.wf(),
            batch@.select(all.take(i as int)) == Ok::<BatchView<T>, ErrorView>(
                BatchView {
                    fields: fields@,
                    columns: columns@.map_values(|c: Vec<T>| c@),
                    rows: batch@.rows,
                },
            ),
            columns@.len() == fields@.len(),
            forall|c: int|
                0 <= c < columns@.len() ==> (#[trigger] columns@[c])@.len() == batch@.rows,
        decreases names.len() - i,
    {
        proof {
            assert(all.take(i + 1).drop_last() =~= all.take(i as int));
            assert(all.take(i + 1).last() == names@[i as int]@);
            field_position_in_range(batch@.fields, names@[i as int]@);
        }
        match batch.position(names[i].as_str()) {
            None => {
                proof {
                    select_stops(batch@, all, i + 1);
                }
                return Err(DaftError::FieldNotFound(names[i].clone()));
            },
            Some(c) => {
                let ghost before = columns@;
                assert(batch@.columns[c as int] == batch.columns@[c as int]@);
                fields.push(batch.schema.fields[c].clone());
                columns.push(copy_column(&batch.columns[c]));
                assert(columns@.map_values(|c: Vec<T>| c@) =~= before.map_values(
                    |c: Vec<T>| c@,
                ).push(batch@.columns[c as int]));
            },
        }
        i = i + 1;
    }
    assert(all.take(i as int) =~= all);
    Ok(RecordBatch { schema: Schema::new(fields), columns, num_rows: batch.num_rows })
}

/// The rows `picks` of the given tables, in that order: each is a table and a row of it. Without tables
/// there are no columns.
pub open spec fn gathered<T>(tables: Seq<BatchView<T>>, picks: Seq<(int, int)>) -> BatchView<T> {
    BatchView {
        fields: if tables.len() == 0 {
            Seq::empty()
        } else {
            tables[0].fields
        },
        columns: Seq::new(
            if tables.len() == 0 {
                0
            } else {
                tables[0].columns.len()
            },
            |c: int| Seq::new(picks.len(), |m: int| tables[picks[m].0].columns[c][picks[m].1]),
        ),
        rows: picks.len(),
    }
}

/// The tables can be gathered from together: each is sound, and all have the columns of the first.
pub open spec fn gatherable<T>(tables: Seq<BatchView<T>>) -> bool {
    forall|i: int|
        0 <= i < tables.len() ==> (#[trigger] tables[i]).wf() && tables[i].columns.len()
            == tables[0].columns.len()
}

/// Gathers rows of several tables into one batch.
pub struct GrowableRecordBatch<'a, T> {
    tables: &'a Vec<RecordBatch<T>>,
    columns: Vec<Vec<T>>,
    len: usize,
    picks: Ghost<Seq<(int, int)>>,
}

impl<'a, T: Copy> GrowableRecordBatch<'a, T> {
    /// The tables that rows are gathered from.
    pub closed spec fn sources(&self) -> Seq<BatchView<T>> {
        views(self.tables@)
    }

    /// The rows that were gathered so far.
    pub closed spec fn gathered_rows(&self) -> Seq<(int, int)> {
        self.picks@
    }

    /// The columns hold the gathered rows.
    pub closed spec fn wf(&self) -> bool {
        let expected = gathered(self.sources(), self.picks@);
        &&& gatherable(self.sources())
        &&& self.len == self.picks@.len()
        &&& self.columns@.len() == expected.columns.len()
        &&& forall|c: int|
            0 <= c < self.columns@.len() ==> (#[trigger] self.columns@[c])@ == expected.columns[c]
        &&& forall|m: int|
            0 <= m < self.picks@.len() ==> 0 <= (#[trigger] self.picks@[m]).0
                < self.sources().len() && 0 <= self.picks@[m].1
                < self.sources()[self.picks@[m].0].rows
    }

    /// Nothing gathered yet.
    pub fn new(tables: &'a Vec<RecordBatch<T>>) -> (r: Self)
        requires
            gatherable(views(tables@)),
        ensures
            r.wf(),
            r.sources() == views(tables@),
            r.gathered_rows() == Seq::<(int, int)>::empty(),
    {
        let ghost sources = views(tables@);
        let mut columns: Vec<Vec<T>> = Vec::new();
        if tables.len() > 0 {
            let mut c: usize = 0;
            assert(sources[0] == tables@[0]@);
            while c < tables[0].columns.len()
                invariant
                    tables@.len() > 0,
                    c <= tables@[0].columns@.len(),
                    columns@.len() == c,
                    forall|d: int| 0 <= d < c ==> (#[trigger] columns@[d])@.len() == 0,
                decreases tables@[0].columns@.len() - c,
            {
                columns.push(Vec::new());
                c = c + 1;
            }
        }
        let r = GrowableRecordBatch { tables, columns, len: 0, picks: Ghost(Seq::empty()) };
        proof {
            let expected = gathered(r.sources(), r.picks@);
            assert forall|c: int| 0 <= c < r.columns@.len() implies (#[trigger] r.columns@[c])@
                == expected.columns[c] by {
                assert(r.columns@[c]@ =~= expected.columns[c]);
            }
        }
        r
    }

    /// The number of rows gathered so far.
    pub fn len(&self) -> (r: usize)
        requires
            self.wf(),
        ensures
            r == self.gathered_rows().len(),
    {
        self.len
    }

    /// Appends one row of one table.
    fn extend_row(&mut self, index: usize, row: usize)
        requires
            old(self).wf(),
            index < old(self).sources().len(),
            row < old(self).sources()[index as int].rows,
            old(self).gathered_rows().len() < usize::MAX,
        ensures
            final(self).wf(),
            final(self).sources() == old(self).sources(),
            final(self).gathered_rows() == old(self).gathered_rows().push(
                (index as int, row as int),
            ),
    {
        let ghost sources = self.sources();
        let ghost picks = self.picks@;
        let ghost more = picks.push((index as int, row as int));
        let ghost start = gathered(sources, picks).columns;
        let ghost target = gathered(sources, more).columns;
        let table = &self.tables[index];
        let mut c: usize = 0;
        proof {
            assert(sources[index as int] == table@);
            assert(table@.wf());
            assert(start.len() == target.len());
        }
        while c < self.columns.len()
            invariant
                c <= self.columns@.len(),
                table == self.tables@[index as int],
                table@ == sources[index as int],
                table@.wf(),
                row < table@.rows,
                table@.columns.len() == self.columns@.len(),
                sources == views(self.tables@),
                self.tables == old(self).tables,
                self.len == old(self).len,
                self.picks == old(self).picks,
                picks == self.picks@,
                more == picks.push((index as int, row as int)),
                start == gathered(sources, picks).columns,
                target == gathered(sources, more).columns,
                self.columns@.len() == target.len(),
                start.len() == target.len(),
                forall|d: int| 0 <= d < c ==> (#[trigger] self.columns@[d])@ == target[d],
                forall|d: int|
                    c <= d < self.columns@.len() ==> (#[trigger] self.columns@[d])@ == start[d],
            decreases self.columns@.len() - c,
        {
            assert(table@.columns[c as int] == table.columns@[c as int]@);
            let v = table.columns[c][row];
            let ghost before = self.columns@;
            self.columns[c].push(v);
            proof {
                assert(start[c as int].push(v) =~= target[c as int]);
                assert(self.columns@[c as int]@ == target[c as int]);
            }
            c = c + 1;
        }
        self.len = self.len + 1;
        self.picks = Ghost(more);
        proof {
            assert forall|m: int| 0 <= m < self.picks@.len() implies 0 <= (
            #[trigger] self.picks@[m]).0 < self.sources().len() && 0 <= self.picks@[m].1
                < self.sources()[self.picks@[m].0].rows by {
                if m < picks.len() {
                    assert(self.picks@[m] == picks[m]);
                }
            }
        }
    }

    /// Appends `len` rows of one table, starting at `start`.
    pub fn extend(&mut self, index: usize, start: usize, len: usize)
        requires
            old(self).wf(),
            index < old(self).sources().len(),
            start + len <= old(self).sources()[index as int].rows,
            old(self).gathered_rows().len() + len <= usize::MAX,
        ensures
            final(self).wf(),
            final(self).sources() == old(self).sources(),
            final(self).gathered_rows() == old(self).gathered_rows() + Seq::new(
                len as nat,
                |i: int| (index as int, start + i),
            ),
    {
        let ghost base = self.gathered_rows();
        let mut i: usize = 0;
        while i < len
            invariant
                i <= len,
                base == old(self).gathered_rows(),
                self.wf(),
                self.sources() == old(self).sources(),
                index < self.sources().len(),
                start + len <= self.sources()[index as int].rows,
                base.len() + len <= usize::MAX,
                start + len <= usize::MAX,
                self.gathered_rows() == base + Seq::new(
                    i as nat,
                    |i: int| (index as int, start + i),
                ),
            decreases len - i,
        {
            self.extend_row(index, start + i);
            i = i + 1;
            assert(self.gathered_rows() =~= base + Seq::new(
                i as nat,
                |i: int| (index as int, start + i),
            ));
        }
        assert(self.gathered_rows() =~= base + Seq::new(
            len as nat,
            |i: int| (index as int, start + i),
        ));
    }

    /// The gathered rows as one batch.
    pub fn build(self) -> (r: RecordBatch<T>)
        requires
            self.wf(),
        ensures
            r@ == gathered(self.sources(), self.gathered_rows()),
            r@.wf(),
    {
        let fields = if self.tables.len() == 0 {
            Vec::new()
        } else {
            copy_fields(&self.tables[0].schema.fields)
        };
        let ghost expected = gathered(self.sources(), self.picks@);
        let r = RecordBatch {
            schema: Schema::new(fields),
            columns: self.columns,
            num_rows: self.len,
        };
        proof {
            assert(r@.columns =~= expected.columns);
            assert(r@.fields =~= expected.fields);
        }
        r
    }
}

/// Gathering from one table is taking its rows.
pub proof fn gathering_from_one_table_is_taking<T>(table: BatchView<T>, idx: Seq<int>)
    ensures
        gathered(seq![table], idx.map_values(|i: int| (0int, i))) == table.take(idx),
{
    let picks = idx.map_values(|i: int| (0int, i));
    let a = gathered(seq![table], picks);
    let b = table.take(idx);
    assert forall|c: int| 0 <= c < a.columns.len() implies a.columns[c] == b.columns[c] by {
        assert(a.columns[c] =~= b.columns[c]);
    }
    assert(a.columns =~= b.columns);
    assert(a =~= b);
}

/// A batch of rows of one schema, as loaded partitions hold them.
#[derive(Debug)]
pub struct MicroPartition<T> {
    pub schema: Arc<Schema>,
    pub tables: Vec<RecordBatch<T>>,
}

/// The number of rows of the batches together.
pub open spec fn total_rows<T>(tables: Seq<BatchView<T>>) -> nat
    decreases tables.len(),
{
    if tables.len() == 0 {
        0
    } else {
        total_rows(tables.drop_last()) + tables.last().rows
    }
}

/// The rows of batches add up: one batch has its own rows, and two lists of batches have together the rows
/// that each has.
pub proof fn rows_add_up<T>(a: Seq<BatchView<T>>, b: Seq<BatchView<T>>, one: BatchView<T>)
    ensures
        total_rows(a + b) == total_rows(a) + total_rows(b),
        total_rows(seq![one]) == one.rows,
        total_rows(Seq::<BatchView<T>>::empty()) == 0,
    decreases b.len(),
{
    if b.len() == 0 {
        assert(a + b =~= a);
    } else {
        rows_add_up(a, b.drop_last(), one);
        assert((a + b).drop_last() =~= a + b.drop_last());
    }
    assert(seq![one].drop_last() =~= Seq::empty());
    assert(total_rows(seq![one].drop_last()) == 0);
}

impl<T: Copy> MicroPartition<T> {
    /// A partition from its batches.
    pub fn new_loaded(schema: Arc<Schema>, tables: Vec<RecordBatch<T>>) -> (r: MicroPartition<T>)
        ensures
            r == (MicroPartition { schema, tables }),
    {
        MicroPartition { schema, tables }
    }

    /// The batches of the partition.
    pub fn record_batches(&self) -> (r: &Vec<RecordBatch<T>>)
        ensures
            *r == self.tables,
    {
        &self.tables
    }

    /// The number of rows.
    pub fn len(&self) -> (r: usize)
        requires
            total_rows(views(self.tables@)) <= usize::MAX,
        ensures
            r == total_rows(views(self.tables@)),
    {
        let ghost all = views(self.tables@);
        let mut n: usize = 0;
        let mut i: usize = 0;
        assert(all.take(0) =~= Seq::empty());
        while i < self.tables.len()
            invariant
                i <= self.tables.len(),
                all == views(self.tables@),
                n == total_rows(all.take(i as int)),
                total_rows(all) <= usize::MAX,
            decreases self.tables.len() - i,
        {
            proof {
                total_rows_grow(all, i + 1);
                assert(all.take(i + 1).drop_last() =~= all.take(i as int));
                assert(all.take(i + 1).last() == self.tables@[i as int]@);
            }
            n = n + self.tables[i].num_rows;
            i = i + 1;
        }
        assert(all.take(i as int) =~= all);
        n
    }
}

proof fn total_rows_grow<T>(tables: Seq<BatchView<T>>, i: int)
    requires
        0 <= i <= tables.len(),
    ensures
        total_rows(tables.take(i)) <= total_rows(tables),
    decreases tables.len(),
{
    if i < tables.len() {
        assert(tables.drop_last().take(i) =~= tables.take(i));
        total_rows_grow(tables.drop_last(), i);
    } else {
        assert(tables.take(i) =~= tables);
    }
}

} // verus!
