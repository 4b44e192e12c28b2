use crate::capacity::write_buffer_capacity;
use crate::format::{encode_record, encode_records};
use crate::record::{byte_record_fields, byte_record_new, fill_record};
use crate::value::{all_strings, record_fits, row_fields, TypeError, Value, WriteError};
use vstd::prelude::*;

verus! {

/// Internal buffer size of the writer behind `generate_lines`.
pub const LINES_BUFFER_CAPACITY: usize = 65536;

/// Internal buffer size of the writer behind `generate_line`.
pub const LINE_BUFFER_CAPACITY: usize = 1024;

/// Initial capacity of the text produced by `generate_line`.
pub const LINE_OUTPUT_CAPACITY: usize = 256;

/// A `csv::Writer` that writes CSV text into a byte vector it owns.
#[verifier::external_body]
pub struct TextWriter {
    inner: csv::Writer<Vec<u8>>,
}

#[verifier::external_type_specification]
#[verifier::external_body]
pub struct ExIoError(std::io::Error);

/// The records that a CSV writer into a byte vector has accepted so far,
/// in order.
pub uninterp spec fn written_records(w: TextWriter) -> Seq<Seq<Seq<u8>>>;

/// `csv::WriterBuilder::new().buffer_capacity(capacity).from_writer(sink)`:
/// a writer with the default dialect (`,` delimiter, `"` quote doubled
/// inside quoted fields, `\n` terminator, quotes only where necessary,
/// records of equal length enforced) that has accepted no record yet.
#[verifier::external_body]
fn csv_writer_new(capacity: usize, sink: Vec<u8>) -> (w: TextWriter)
    requires
        LINE_BUFFER_CAPACITY <= capacity,
        sink@.len() == 0,
    ensures
        written_records(w) == Seq::<Seq<Seq<u8>>>::empty(),
{
    TextWriter { inner: csv::WriterBuilder::new().buffer_capacity(capacity).from_writer(sink) }
}

/// `csv::Writer::write_byte_record`. It succeeds exactly when the record
/// has as many fields as the first record the writer accepted (or is the
/// first); it then has accepted the record too. On failure (the
/// `UnequalLengths` error) the writer, whose buffer then holds part of the
/// rejected record, is dropped.
#[verifier::external_body]
fn csv_write_byte_record(w: TextWriter, record: &csv::ByteRecord) -> (r: Result<
    TextWriter,
    csv::Error,
>)
    requires
        record_fits(byte_record_fields(*record)),
    ensures
        r is Ok <==> (written_records(w).len() == 0 || written_records(w)[0].len()
            == byte_record_fields(*record).len()),
        r is Ok ==> written_records(r->Ok_0) == written_records(w).push(
            byte_record_fields(*record),
        ),
{
    let mut w = w;
    match w.inner.write_byte_record(record) {
        Ok(()) => Ok(w),
        Err(e) => Err(e),
    }
}

/// `csv::Writer::into_inner`: flushes the writer and hands back the byte
/// vector, which holds the CSV text of the accepted records. Flushing into
/// a vector cannot fail.
#[verifier::external_body]
fn csv_writer_into_bytes(w: TextWriter) -> (r: Result<Vec<u8>, std::io::Error>)
    ensures
        r is Ok,
        r is Ok ==> r->Ok_0@ == encode_records(written_records(w)),
{
    w.inner.into_inner().map_err(|e| e.into_error())
}

/// The CSV text of a single row of cells, or the reason it cannot be written.
pub open spec fn line_result(cells: Seq<Value>) -> Result<Seq<u8>, TypeError> {
    if all_strings(cells) {
        Ok(encode_record(row_fields(cells)))
    } else {
        Err(TypeError::CellNotString)
    }
}

/// Writes one row of string cells as a line of CSV text.
pub fn generate_line(row: &Vec<Value>) -> (r: Result<Vec<u8>, WriteError>)
    requires
        record_fits(row_fields(row@)),
    ensures
        line_result(row@) matches Ok(text) ==> r is Ok && r->Ok_0@ == text,
        line_result(row@) matches Err(e) ==> r matches Err(WriteError::Type(k)) && k == e,
{
    let w = csv_writer_new(LINE_BUFFER_CAPACITY, Vec::with_capacity(LINE_OUTPUT_CAPACITY));
    let mut record = byte_record_new();
    match fill_record(row, &mut record) {
        Ok(()) => {},
        Err(e) => {
            return Err(e);
        },
    }
    let w = match csv_write_byte_record(w, &record) {
        Ok(w) => w,
        Err(e) => {
            return Err(WriteError::Csv(e));
        },
    };
    proof {
        assert(written_records(w) =~= seq![row_fields(row@)]);
        crate::format::lemma_encode_single_record(row_fields(row@));
    }
    match csv_writer_into_bytes(w) {
        Ok(bytes) => Ok(bytes),
        Err(_) => {
            proof {
                assert(false);
            }
            Ok(Vec::new())
        },
    }
}

/// Why a sequence of rows cannot be written.
#[derive(PartialEq, Eq, Structural, Clone, Copy, Debug)]
pub enum RowsFailure {
    /// A row, or one of its cells, is of the wrong kind.
    Type(TypeError),
    /// A row has a different number of cells than the first row.
    UnequalLengths,
}

/// What is wrong with a row by itself, if anything.
pub open spec fn row_failure(row: Value) -> Option<TypeError> {
    match row {
        Value::Array(cells) => if all_strings(cells@) {
            None
        } else {
            Some(TypeError::CellNotString)
        },
        _ => Some(TypeError::RowNotArray),
    }
}

/// The cells of a row; none for a value that is not an array.
pub open spec fn row_cells(row: Value) -> Seq<Value> {
    match row {
        Value::Array(cells) => cells@,
        _ => Seq::empty(),
    }
}

/// The records that the rows make, or the first failure met when taking the
/// rows in order: a row of the wrong kind, or a row whose length differs
/// from that of the first row.
pub open spec fn rows_table(rows: Seq<Value>) -> Result<Seq<Seq<Seq<u8>>>, RowsFailure>
    decreases rows.len(),
{
    if rows.len() == 0 {
        Ok(Seq::empty())
    } else {
        match rows_table(rows.drop_last()) {
            Ok(table) => match row_failure(rows.last()) {
                Some(k) => Err(RowsFailure::Type(k)),
                None => {
                    let fields = row_fields(row_cells(rows.last()));
                    if table.len() > 0 && table[0].len() != fields.len() {
                        Err(RowsFailure::UnequalLengths)
                    } else {
                        Ok(table.push(fields))
                    }
                },
            },
            Err(e) => Err(e),
        }
    }
}

/// The rows that can be written without exceeding the writer's size limits.
pub open spec fn rows_fit(rows: Seq<Value>) -> bool {
    forall|i: int| 0 <= i < rows.len() ==> record_fits(row_fields(row_cells(#[trigger] rows[i])))
}

/// Once a prefix of the rows fails, the rows fail in the same way.
pub proof fn lemma_rows_table_failure_persists(rows: Seq<Value>, k: int)
    requires
        0 <= k <= rows.len(),
        rows_table(rows.take(k)) is Err,
    ensures
        rows_table(rows) == rows_table(rows.take(k)),
    decreases rows.len() - k,
{
    if k == rows.len() {
        assert(rows.take(k) =~= rows);
    } else {
        assert(rows.take(k + 1).drop_last() =~= rows.take(k));
        lemma_rows_table_failure_persists(rows, k + 1);
    }
}

/// Writes rows of string cells as CSV text, one line per row. Every row must
/// have as many cells as the first.
pub fn generate_lines(rows: &Vec<Value>) -> (r: Result<Vec<u8>, WriteError>)
    requires
        rows_fit(rows@),
    ensures
        rows_table(rows@) matches Ok(table) ==> r is Ok && r->Ok_0@ == encode_records(table),
        rows_table(rows@) matches Err(RowsFailure::Type(k)) ==> r matches Err(WriteError::Type(e))
            && e == k,
        rows_table(rows@) matches Err(RowsFailure::UnequalLengths) ==> r matches Err(
            WriteError::Csv(_),
        ),
{
    let row_count = rows.len();
    let mut w = csv_writer_new(
        LINES_BUFFER_CAPACITY,
        Vec::with_capacity(write_buffer_capacity(row_count)),
    );
    let mut record = byte_record_new();
    let mut i: usize = 0;
    while i < row_count
        invariant
            row_count == rows@.len(),
            i <= row_count,
            rows_fit(rows@),
            rows_table(rows@.take(i as int)) == Ok::<_, RowsFailure>(written_records(w)),
        decreases row_count - i,
    {
        proof {
            assert(rows@.take(i + 1).drop_last() =~= rows@.take(i as int));
            assert(rows@.take(i + 1).last() == rows@[i as int]);
        }
        match &rows[i] {
            Value::Array(cells) => {
                assert(record_fits(row_fields(row_cells(rows@[i as int]))));
                match fill_record(cells, &mut record) {
                    Ok(()) => {},
                    Err(e) => {
                        proof {
                            lemma_rows_table_failure_persists(rows@, i + 1);
                        }
                        return Err(e);
                    },
                }
                w = match csv_write_byte_record(w, &record) {
                    Ok(next) => next,
                    Err(e) => {
                        proof {
                            lemma_rows_table_failure_persists(rows@, i + 1);
                        }
                        return Err(WriteError::Csv(e));
                    },
                };
            },
            _ => {
                proof {
                    lemma_rows_table_failure_persists(rows@, i + 1);
                }
                return Err(WriteError::Type(TypeError::RowNotArray));
            },
        }
        i = i + 1;
    }
    proof {
        assert(rows@.take(row_count as int) =~= rows@);
    }
    match csv_writer_into_bytes(w) {
        Ok(bytes) => Ok(bytes),
        Err(_) => {
            proof {
                assert(false);
            }
            Ok(Vec::new())
        },
    }
}

} // verus!

verus! {

/// The records of rows of string cells.
pub open spec fn table_of(rows: Seq<Value>) -> Seq<Seq<Seq<u8>>> {
    rows.map_values(|v: Value| row_fields(row_cells(v)))
}

/// Every row is an array of strings, and all rows are as long as the first.
pub open spec fn rows_well_formed(rows: Seq<Value>) -> bool {
    &&& forall|i: int| 0 <= i < rows.len() ==> row_failure(#[trigger] rows[i]) is None
    &&& forall|i: int|
        0 <= i < rows.len() ==> row_cells(#[trigger] rows[i]).len() == row_cells(rows[0]).len()
}

/// Rows that are all arrays of strings never fail for their kind.
pub proof fn lemma_rows_table_no_type_failure(rows: Seq<Value>)
    requires
        forall|i: int| 0 <= i < rows.len() ==> row_failure(#[trigger] rows[i]) is None,
    ensures
        !(rows_table(rows) matches Err(RowsFailure::Type(_))),
    decreases rows.len(),
{
    if rows.len() > 0 {
        let front = rows.drop_last();
        assert forall|i: int| 0 <= i < front.len() implies row_failure(#[trigger] front[i]) is None by {
            assert(front[i] == rows[i]);
        }
        lemma_rows_table_no_type_failure(front);
        assert(row_failure(rows[rows.len() - 1]) is None);
    }
}

/// Writing rows succeeds exactly when every row is an array of strings and
/// all rows have as many cells as the first; the records written are then
/// the rows' cells, row by row.
pub proof fn law_rows_write_iff_well_formed(rows: Seq<Value>)
    ensures
        rows_table(rows) is Ok <==> rows_well_formed(rows),
        rows_table(rows) is Ok ==> rows_table(rows) == Ok::<_, RowsFailure>(table_of(rows)),
    decreases rows.len(),
{
    if rows.len() > 0 {
        let front = rows.drop_last();
        law_rows_write_iff_well_formed(front);
        assert forall|i: int| 0 <= i < front.len() implies #[trigger] front[i] == rows[i] by {}
        if rows_well_formed(rows) {
            assert(rows_well_formed(front)) by {
                if front.len() > 0 {
                    assert(front[0] == rows[0]);
                }
            }
            assert(row_failure(rows[rows.len() - 1]) is None);
            if front.len() > 0 {
                assert(table_of(front)[0] == row_fields(row_cells(rows[0])));
            }
            assert(table_of(front).push(row_fields(row_cells(rows.last()))) =~= table_of(rows));
        }
        if rows_table(rows) is Ok {
            assert(rows_well_formed(front));
            let last = rows.last();
            assert(row_failure(last) is None);
            assert forall|i: int| 0 <= i < rows.len() implies row_failure(#[trigger] rows[i]) is None by {
                if i < front.len() {
                    assert(front[i] == rows[i]);
                }
            }
            assert forall|i: int|
                0 <= i < rows.len() implies row_cells(#[trigger] rows[i]).len() == row_cells(
                rows[0],
            ).len() by {
                if i < front.len() {
                    assert(front[i] == rows[i]);
                    assert(front[0] == rows[0]);
                } else if front.len() > 0 {
                    assert(table_of(front)[0] == row_fields(row_cells(front[0])));
                    assert(front[0] == rows[0]);
                }
            }
            assert(table_of(front).push(row_fields(row_cells(last))) =~= table_of(rows));
        }
    } else {
        assert(table_of(rows) =~= Seq::<Seq<Seq<u8>>>::empty());
    }
}

/// Writing the rows `a` followed by the rows `b` in one call gives, when it
/// succeeds, the text of writing `a` followed by the text of writing `b`.
pub proof fn law_rows_write_splits(a: Seq<Value>, b: Seq<Value>)
    requires
        rows_table(a + b) is Ok,
    ensures
        rows_table(a) is Ok,
        rows_table(b) is Ok,
        encode_records(rows_table(a + b)->Ok_0) == encode_records(rows_table(a)->Ok_0)
            + encode_records(rows_table(b)->Ok_0),
{
    let ab = a + b;
    law_rows_write_iff_well_formed(ab);
    law_rows_write_iff_well_formed(a);
    law_rows_write_iff_well_formed(b);
    assert forall|i: int| 0 <= i < a.len() implies #[trigger] a[i] == ab[i] by {}
    assert forall|i: int| 0 <= i < b.len() implies #[trigger] b[i] == ab[a.len() + i] by {}
    if a.len() > 0 {
        assert(a[0] == ab[0]);
    }
    if b.len() > 0 {
        assert(b[0] == ab[a.len() as int]);
    }
    assert(rows_well_formed(a));
    assert(rows_well_formed(b));
    assert(table_of(ab) =~= table_of(a) + table_of(b));
    crate::format::lemma_encode_records_append(table_of(a), table_of(b));
}

/// Writing a single row with `generate_lines` gives the same text, or the
/// same type failure, as writing it with `generate_line`.
pub proof fn law_one_row_is_one_line(cells: Vec<Value>)
    ensures
        rows_table(seq![Value::Array(cells)]) matches Ok(table) ==> line_result(cells@) == Ok::<
            _,
            TypeError,
        >(encode_records(table)),
        rows_table(seq![Value::Array(cells)]) matches Err(f) ==> (line_result(cells@) matches Err(
            k,
        ) && f == RowsFailure::Type(k)),
        line_result(cells@) is Ok ==> rows_table(seq![Value::Array(cells)]) is Ok,
{
    let rows = seq![Value::Array(cells)];
    assert(rows.drop_last() =~= Seq::<Value>::empty());
    assert(rows.last() == Value::Array(cells));
    assert(rows_table(rows.drop_last()) == Ok::<_, RowsFailure>(Seq::<Seq<Seq<u8>>>::empty()));
    if all_strings(cells@) {
        assert(Seq::<Seq<Seq<u8>>>::empty().push(row_fields(cells@)) =~= seq![row_fields(cells@)]);
        assert(rows_table(rows) == Ok::<_, RowsFailure>(seq![row_fields(cells@)]));
        crate::format::lemma_encode_single_record(row_fields(cells@));
    }
}

/// The lines of the rows, each as `generate_line` writes the row's cells,
/// one after another.
pub open spec fn lines_of(rows: Seq<Value>) -> Seq<u8>
    decreases rows.len(),
{
    if rows.len() == 0 {
        Seq::empty()
    } else {
        lines_of(rows.drop_last()) + match line_result(row_cells(rows.last())) {
            Ok(text) => text,
            Err(_) => Seq::empty(),
        }
    }
}

/// The records of rows of string cells, written together, are the records
/// written one by one.
proof fn lemma_table_text_is_lines(rows: Seq<Value>)
    requires
        forall|i: int| 0 <= i < rows.len() ==> row_failure(#[trigger] rows[i]) is None,
    ensures
        encode_records(table_of(rows)) == lines_of(rows),
    decreases rows.len(),
{
    if rows.len() > 0 {
        let front = rows.drop_last();
        assert forall|i: int| 0 <= i < front.len() implies row_failure(#[trigger] front[i]) is None by {
            assert(front[i] == rows[i]);
        }
        lemma_table_text_is_lines(front);
        assert(table_of(rows).drop_last() =~= table_of(front));
        assert(row_failure(rows[rows.len() - 1]) is None);
        assert(all_strings(row_cells(rows.last())));
    }
}

/// When `generate_lines` succeeds, its text is the text that
/// `generate_line` gives for each row's cells, joined in order; and
/// `generate_line` succeeds on each of those rows.
pub proof fn law_lines_are_joined_lines(rows: Seq<Value>)
    requires
        rows_table(rows) is Ok,
    ensures
        forall|i: int| 0 <= i < rows.len() ==> line_result(row_cells(#[trigger] rows[i])) is Ok,
        encode_records(rows_table(rows)->Ok_0) == lines_of(rows),
{
    law_rows_write_iff_well_formed(rows);
    lemma_table_text_is_lines(rows);
}

/// Rows that are arrays of strings, all as long as the first, are written
/// as one record per row, in order, each field exactly the bytes of the
/// cell in that place.
pub proof fn law_records_are_the_cells(rows: Seq<Value>)
    requires
        forall|i: int|
            0 <= i < rows.len() ==> (#[trigger] rows[i]) is Array && all_strings(rows[i]->Array_0@)
                && rows[i]->Array_0@.len() == rows[0]->Array_0@.len(),
    ensures
        rows_table(rows) is Ok,
        rows_table(rows)->Ok_0.len() == rows.len(),
        forall|i: int|
            0 <= i < rows.len() ==> (#[trigger] rows_table(rows)->Ok_0[i]).len() == rows[i]->Array_0@.len(),
        forall|i: int, j: int|
            0 <= i < rows.len() && 0 <= j < rows[i]->Array_0@.len() ==> #[trigger] rows_table(
                rows,
            )->Ok_0[i][j] == rows[i]->Array_0@[j]->Str_0@,
{
    assert(rows_well_formed(rows)) by {
        assert forall|i: int| 0 <= i < rows.len() implies row_failure(#[trigger] rows[i]) is None by {
            assert(rows[i] is Array);
        }
        assert forall|i: int| 0 <= i < rows.len() implies row_cells(#[trigger] rows[i]).len()
            == row_cells(rows[0]).len() by {
            assert(rows[i] is Array);
            assert(rows[0] is Array);
        }
    }
    law_rows_write_iff_well_formed(rows);
    assert forall|i: int| 0 <= i < rows.len() implies (#[trigger] rows_table(rows)->Ok_0[i]).len()
        == rows[i]->Array_0@.len() by {
        crate::value::law_fields_are_cell_bytes(row_cells(rows[i]));
    }
    assert forall|i: int, j: int|
        0 <= i < rows.len() && 0 <= j < rows[i]->Array_0@.len() implies #[trigger] rows_table(
        rows,
    )->Ok_0[i][j] == rows[i]->Array_0@[j]->Str_0@ by {
        crate::value::law_fields_are_cell_bytes(row_cells(rows[i]));
        assert(all_strings(rows[i]->Array_0@));
        assert(rows[i]->Array_0@[j] is Str);
    }
}

/// A row of string cells is written as the CSV record of exactly its cells'
/// bytes.
pub proof fn law_line_is_the_cells(cells: Seq<Value>)
    requires
        forall|i: int| 0 <= i < cells.len() ==> (#[trigger] cells[i]) is Str,
    ensures
        line_result(cells) is Ok,
        line_result(cells)->Ok_0 == encode_record(cells.map_values(|v: Value| v->Str_0@)),
{
    crate::value::law_fields_are_cell_bytes(cells);
    assert(row_fields(cells) =~= cells.map_values(|v: Value| v->Str_0@));
}

} // verus!
