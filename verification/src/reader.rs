use crate::grammar::{
    bom_len, copies, csv_records, ends_from, no_close_before, pending, record_final, record_row,
    run_state, scan_from, scan_start, CsvScan, CsvState,
};
use vstd::prelude::*;

verus! {

/// Initial size of the buffer that receives the unescaped bytes of a record.
pub const INITIAL_FIELD_BYTES: usize = 4096;

/// Initial number of field end positions that a record can report.
pub const INITIAL_ENDS: usize = 64;

/// Input bytes per row assumed when pre-sizing the rows of a parse.
pub const BYTES_PER_ESTIMATED_ROW: usize = 360;

/// Fewest rows reserved for a parse.
pub const MIN_ESTIMATED_ROWS: usize = 8;

#[verifier::external_type_specification]
#[verifier::external_body]
pub struct ExCoreReader(csv_core::Reader);

/// A `csv_core::Reader` with the default dialect: `,` delimiter, `"`
/// quotes (doubled inside quoted fields), `\r`, `\n` or `\r\n` ending a
/// record, no comments, run as a DFA.
///
/// Beside the reader stands a ghost model of it: whether it has taken any
/// input yet (`started`: a UTF-8 byte order mark is skipped only at the very
/// start), the state it stands in (`state`), and how many content bytes of
/// the current record it has written so far (`output_pos`).
pub struct CoreReader {
    inner: csv_core::Reader,
    started: Ghost<bool>,
    state: Ghost<CsvState>,
    output_pos: Ghost<usize>,
}

/// What a call of `csv_core::Reader::read_record` reports.
#[derive(PartialEq, Eq, Structural, Clone, Copy, Debug)]
pub enum ReadOutcome {
    /// All input was used before the end of a record.
    InputEmpty,
    /// The output buffer filled before a field was complete.
    OutputFull,
    /// The buffer of field ends filled before the next field.
    OutputEndsFull,
    /// A record ended.
    Record,
    /// No data is left.
    End,
}

/// `csv_core::ReaderBuilder::new().build()`: a reader with the default
/// dialect, at the start of its input, before any record, having written
/// nothing.
#[verifier::external_body]
fn core_reader_new() -> (r: CoreReader)
    ensures
        !r.started@,
        r.state@ == CsvState::StartRecord,
        r.output_pos@ == 0,
{
    CoreReader {
        inner: csv_core::ReaderBuilder::new().build(),
        started: Ghost(false),
        state: Ghost(CsvState::StartRecord),
        output_pos: Ghost(0),
    }
}

/// `csv_core::Reader::read_record` on `input`, writing unescaped field bytes
/// to `output[out_start..]` and field end positions to `ends[ends_start..]`;
/// it returns the outcome and the numbers of bytes read, bytes written and
/// ends written. An empty `input` means that the data is exhausted.
///
/// The reader skips a byte order mark at the very start, then reads byte
/// by byte as `dfa_step` describes, copying content bytes to `output` and
/// the record's content length at each field end to `ends`. Before each
/// byte it stops if the input, the output or the ends are used up, and it
/// stops after the byte that ends a record (`Record`). Called with no input
/// left after the mark, it ends a pending record (given room for its last
/// end), or else reports `End`. The counts stay within the buffers, and
/// bytes before `out_start` and `ends_start` are kept.
#[verifier::external_body]
fn core_read_record(
    reader: &mut CoreReader,
    input: &[u8],
    output: &mut Vec<u8>,
    out_start: usize,
    ends: &mut Vec<usize>,
    ends_start: usize,
) -> (r: (ReadOutcome, usize, usize, usize))
    requires
        out_start <= old(output)@.len(),
        ends_start <= old(ends)@.len(),
    ensures
        final(output)@.len() == old(output)@.len(),
        final(ends)@.len() == old(ends)@.len(),
        r.1 <= input@.len(),
        r.2 <= old(output)@.len() - out_start,
        r.3 <= old(ends)@.len() - ends_start,
        r.2 <= r.1,
        input@.len() > 0 ==> r.3 <= r.1,
        input@.len() > 0 && old(output)@.len() > out_start && old(ends)@.len() > ends_start ==> r.1
            > 0,
        input@.len() > 0 && r.1 == 0 ==> r.3 == 0,
        input@.len() > 0 && r.1 == 0 && old(output)@.len() == out_start ==> r.0
            == ReadOutcome::OutputFull,
        input@.len() > 0 && r.1 == 0 && old(output)@.len() > out_start && old(ends)@.len()
            == ends_start ==> r.0 == ReadOutcome::OutputEndsFull,
        input@.len() == 0 ==> r.1 == 0 && r.2 == 0 && ((r.0 == ReadOutcome::Record && r.3 == 1)
            || (r.0 == ReadOutcome::End && r.3 == 0) || (r.0 == ReadOutcome::OutputEndsFull && r.3
            == 0 && old(ends)@.len() == ends_start)),
        r.0 == ReadOutcome::InputEmpty ==> r.1 == input@.len(),
        final(reader).started@,
        bom_len(input@, old(reader).started@) <= r.1,
        r.0 == ReadOutcome::Record ==> r.3 >= 1,
        input@.len() == bom_len(input@, old(reader).started@) ==> r.1 == input@.len() && r.2 == 0 && (
            r.0 != ReadOutcome::Record ==> r.3 == 0),
        r.0 == ReadOutcome::End ==> input@.len() == bom_len(input@, old(reader).started@),
        final(output)@.subrange(0, out_start as int) == old(output)@.subrange(0, out_start as int),
        final(ends)@.subrange(0, ends_start as int) == old(ends)@.subrange(0, ends_start as int),
        input@.len() > bom_len(input@, old(reader).started@) ==> final(reader).state@ == run_state(
            old(reader).state@,
            input@.subrange(bom_len(input@, old(reader).started@), r.1 as int),
        ),
        input@.len() > bom_len(input@, old(reader).started@) ==> no_close_before(
            old(reader).state@,
            input@.subrange(bom_len(input@, old(reader).started@), r.1 as int),
        ),
        input@.len() > bom_len(input@, old(reader).started@) ==> (r.0 == ReadOutcome::Record <==> (
        r.1 > bom_len(input@, old(reader).started@) && record_final(
            run_state(
                old(reader).state@,
                input@.subrange(bom_len(input@, old(reader).started@), r.1 as int),
            ),
        ))),
        input@.len() > bom_len(input@, old(reader).started@) ==> final(output)@.subrange(
            out_start as int,
            out_start + r.2,
        ) == copies(
            old(reader).state@,
            input@.subrange(bom_len(input@, old(reader).started@), r.1 as int),
        ),
        input@.len() > bom_len(input@, old(reader).started@) ==> final(ends)@.subrange(
            ends_start as int,
            ends_start + r.3,
        ) == ends_from(
            old(reader).state@,
            input@.subrange(bom_len(input@, old(reader).started@), r.1 as int),
            old(reader).output_pos@,
        ),
        input@.len() > bom_len(input@, old(reader).started@) ==> final(reader).output_pos@ == if r.0
            == ReadOutcome::Record {
            0
        } else {
            (old(reader).output_pos@ + r.2) as usize
        },
        input@.len() == bom_len(input@, old(reader).started@) && !pending(old(reader).state@) ==> r.0
            == ReadOutcome::End && final(reader).state@ == CsvState::StartRecord && final(reader).output_pos@ == old(reader).output_pos@,
        input@.len() == bom_len(input@, old(reader).started@) && pending(old(reader).state@) && old(ends)@.len() > ends_start ==> r.0
            == ReadOutcome::Record && r.3 == 1 && final(ends)@[ends_start as int] == old(reader).output_pos@
            && final(reader).state@ == CsvState::EndRecord && final(reader).output_pos@ == 0,
        input@.len() == bom_len(input@, old(reader).started@) && pending(old(reader).state@) && old(ends)@.len() == ends_start ==> r.0
            == ReadOutcome::OutputEndsFull && final(reader).state@ == old(reader).state@ && final(reader).output_pos@
            == old(reader).output_pos@,
{
    let (res, nin, nout, nend) = reader.inner.read_record(
        input,
        &mut output[out_start..],
        &mut ends[ends_start..],
    );
    let outcome = match res {
        csv_core::ReadRecordResult::InputEmpty => ReadOutcome::InputEmpty,
        csv_core::ReadRecordResult::OutputFull => ReadOutcome::OutputFull,
        csv_core::ReadRecordResult::OutputEndsFull => ReadOutcome::OutputEndsFull,
        csv_core::ReadRecordResult::Record => ReadOutcome::Record,
        csv_core::ReadRecordResult::End => ReadOutcome::End,
    };
    (outcome, nin, nout, nend)
}

/// The end of field `i` of a record whose bytes are the first `limit` bytes
/// of the output buffer: its reported end, moved into `[previous end, limit]`
/// (`0` before the first field).
pub open spec fn field_end(ends: Seq<usize>, limit: int, i: int) -> int
    decreases i + 1,
{
    if i < 0 {
        0
    } else {
        let prev = field_end(ends, limit, i - 1);
        let e = if ends[i] > limit { limit } else { ends[i] as int };
        if e < prev { prev } else { e }
    }
}

/// Field `i` of a record: the output bytes between the end of the field
/// before it and its own end.
pub open spec fn record_field(output: Seq<u8>, ends: Seq<usize>, limit: int, i: int) -> Seq<u8> {
    output.subrange(field_end(ends, limit, i - 1), field_end(ends, limit, i))
}

/// Ends as csv-core reports them: non-decreasing and within the record's bytes.
pub open spec fn ends_well_formed(ends: Seq<usize>, limit: int) -> bool {
    &&& forall|i: int| 0 <= i < ends.len() ==> #[trigger] ends[i] <= limit
    &&& forall|i: int, j: int| 0 <= i <= j < ends.len() ==> ends[i] <= ends[j]
}

/// Field ends stay between `0` and the limit, and never decrease.
pub proof fn lemma_field_end_bounds(ends: Seq<usize>, limit: int, i: int)
    requires
        0 <= limit,
        i < ends.len(),
    ensures
        0 <= field_end(ends, limit, i) <= limit,
        i >= 0 ==> field_end(ends, limit, i - 1) <= field_end(ends, limit, i),
    decreases i + 1,
{
    if i >= 0 {
        lemma_field_end_bounds(ends, limit, i - 1);
    }
}

/// For well-formed ends, the end of each field is the reported one.
pub proof fn lemma_field_end_exact(ends: Seq<usize>, limit: int, i: int)
    requires
        ends_well_formed(ends, limit),
        0 <= i < ends.len(),
    ensures
        field_end(ends, limit, i) == ends[i],
    decreases i,
{
    assert(ends[i] <= limit);
    if i > 0 {
        lemma_field_end_exact(ends, limit, i - 1);
        assert(ends[i - 1] <= ends[i]);
    } else {
        assert(field_end(ends, limit, -1) == 0);
    }
}

/// The first `n` fields of a record, put together.
pub open spec fn joined_fields(output: Seq<u8>, ends: Seq<usize>, limit: int, n: int) -> Seq<u8>
    decreases n,
{
    if n <= 0 {
        Seq::empty()
    } else {
        joined_fields(output, ends, limit, n - 1) + record_field(output, ends, limit, n - 1)
    }
}

/// The fields of a record, put together in order, are the record's bytes up
/// to the end of its last field: no byte is skipped or repeated.
pub proof fn law_fields_cover_the_record(output: Seq<u8>, ends: Seq<usize>, limit: int, n: int)
    requires
        0 <= limit <= output.len(),
        0 <= n <= ends.len(),
    ensures
        joined_fields(output, ends, limit, n) == output.subrange(0, field_end(ends, limit, n - 1)),
    decreases n,
{
    if n == 0 {
        assert(field_end(ends, limit, -1) == 0);
        assert(output.subrange(0, 0) =~= Seq::<u8>::empty());
    } else {
        law_fields_cover_the_record(output, ends, limit, n - 1);
        lemma_field_end_bounds(ends, limit, n - 1);
        let a = field_end(ends, limit, n - 2);
        let b = field_end(ends, limit, n - 1);
        assert(output.subrange(0, a) + output.subrange(a, b) =~= output.subrange(0, b));
    }
}

/// With ends as csv-core reports them, each field is exactly the bytes from
/// the reported end of the field before it (or the start) to its own.
pub proof fn law_well_formed_ends_give_exact_fields(
    output: Seq<u8>,
    ends: Seq<usize>,
    limit: int,
    i: int,
)
    requires
        0 <= limit <= output.len(),
        ends_well_formed(ends, limit),
        0 <= i < ends.len(),
    ensures
        record_field(output, ends, limit, i) == output.subrange(
            if i == 0 {
                0
            } else {
                ends[i - 1] as int
            },
            ends[i] as int,
        ),
{
    lemma_field_end_exact(ends, limit, i);
    if i > 0 {
        lemma_field_end_exact(ends, limit, i - 1);
    } else {
        assert(field_end(ends, limit, -1) == 0);
    }
}

/// Splits the first `outlen` bytes of `output` into the fields whose end
/// positions are the first `endlen` entries of `ends`.
pub fn build_row_from_buffers(
    output: &Vec<u8>,
    outlen: usize,
    ends: &Vec<usize>,
    endlen: usize,
) -> (row: Vec<Vec<u8>>)
    requires
        outlen <= output@.len(),
        endlen <= ends@.len(),
    ensures
        row@.len() == endlen,
        forall|i: int|
            0 <= i < endlen ==> (#[trigger] row@[i])@ == record_field(
                output@,
                ends@.take(endlen as int),
                outlen as int,
                i,
            ),
        row_bytes(row@) <= outlen,
{
    let ghost e = ends@.take(endlen as int);
    let mut row: Vec<Vec<u8>> = Vec::with_capacity(endlen);
    let mut start: usize = 0;
    let mut i: usize = 0;
    while i < endlen
        invariant
            outlen <= output@.len(),
            endlen <= ends@.len(),
            e == ends@.take(endlen as int),
            i <= endlen,
            start == field_end(e, outlen as int, i - 1),
            start <= outlen,
            row@.len() == i,
            row_bytes(row@) == start,
            forall|j: int|
                0 <= j < i ==> (#[trigger] row@[j])@ == record_field(output@, e, outlen as int, j),
        decreases endlen - i,
    {
        proof {
            lemma_field_end_bounds(e, outlen as int, i as int);
        }
        let mut end = ends[i];
        if end > outlen {
            end = outlen;
        }
        if end < start {
            end = start;
        }
        let field = vstd::slice::slice_to_vec(
            vstd::slice::slice_subrange(output.as_slice(), start, end),
        );
        let ghost before = row@;
        row.push(field);
        proof {
            assert(row@.drop_last() =~= before);
        }
        start = end;
        i = i + 1;
    }
    row
}

/// The rows that `parse_csv` reserves room for: one per 360 input bytes, at
/// least 8.
pub fn estimated_rows(len: usize) -> (n: usize)
    ensures
        n == if len / 360 < 8 { 8 } else { len / 360 },
{
    let n = len / BYTES_PER_ESTIMATED_ROW;
    if n < MIN_ESTIMATED_ROWS {
        MIN_ESTIMATED_ROWS
    } else {
        n
    }
}

/// The size a buffer grows to when it is full: double its length (at most
/// `usize::MAX`), and at least one more than the `used` bytes.
pub fn grown_len(len: usize, used: usize) -> (n: usize)
    requires
        used < usize::MAX,
    ensures
        n == if 2 * len > usize::MAX {
            usize::MAX as int
        } else if 2 * len < used + 1 {
            used + 1
        } else {
            2 * len
        },
        n > used,
        n >= len,
{
    let doubled = if len <= usize::MAX / 2 {
        len * 2
    } else {
        usize::MAX
    };
    if doubled < used + 1 {
        used + 1
    } else {
        doubled
    }
}

/// The number of bytes in all fields of all rows.
pub open spec fn rows_bytes(rows: Seq<Vec<Vec<u8>>>) -> nat
    decreases rows.len(),
{
    if rows.len() == 0 {
        0
    } else {
        rows_bytes(rows.drop_last()) + row_bytes(rows.last()@)
    }
}

/// The number of bytes in the fields of a row.
pub open spec fn row_bytes(row: Seq<Vec<u8>>) -> nat
    decreases row.len(),
{
    if row.len() == 0 {
        0
    } else {
        row_bytes(row.drop_last()) + row.last()@.len()
    }
}

/// The rows as sequences of fields of bytes.
pub open spec fn rows_view(rows: Seq<Vec<Vec<u8>>>) -> Seq<Seq<Seq<u8>>> {
    rows.map_values(|r: Vec<Vec<u8>>| r@.map_values(|f: Vec<u8>| f@))
}

/// What has been read of `data` after taking its first `pos` bytes (a
/// leading byte order mark of `mark` bytes skipped), once reading started.
pub open spec fn consumed(data: Seq<u8>, mark: int, pos: int, started: bool) -> CsvScan {
    if started {
        scan_from(scan_start(), data.skip(mark).take(pos - mark))
    } else {
        scan_start()
    }
}

/// A field cut from the first `limit` bytes of a buffer is the same cut from
/// those bytes alone.
proof fn lemma_record_field_take(output: Seq<u8>, ends: Seq<usize>, limit: int, i: int)
    requires
        0 <= limit <= output.len(),
        0 <= i < ends.len(),
    ensures
        record_field(output, ends, limit, i) == record_field(output.take(limit), ends, limit, i),
{
    lemma_field_end_bounds(ends, limit, i);
    assert(output.subrange(field_end(ends, limit, i - 1), field_end(ends, limit, i)) =~= output.take(
        limit,
    ).subrange(field_end(ends, limit, i - 1), field_end(ends, limit, i)));
}

/// The row that `build_row_from_buffers` makes is the record of the buffer's
/// first `outlen` bytes split at the first `endlen` ends.
proof fn lemma_row_is_record(row: Seq<Vec<u8>>, output: Seq<u8>, outlen: int, ends: Seq<usize>)
    requires
        0 <= outlen <= output.len(),
        row.len() == ends.len(),
        forall|i: int|
            0 <= i < ends.len() ==> (#[trigger] row[i])@ == record_field(output, ends, outlen, i),
    ensures
        row.map_values(|f: Vec<u8>| f@) == record_row(output.take(outlen), ends),
{
    assert forall|i: int| 0 <= i < ends.len() implies row.map_values(|f: Vec<u8>| f@)[i]
        == record_row(output.take(outlen), ends)[i] by {
        lemma_record_field_take(output, ends, outlen, i);
        assert(output.take(outlen).len() == outlen);
    }
    assert(row.map_values(|f: Vec<u8>| f@) =~= record_row(output.take(outlen), ends));
}

/// Parses CSV data (default dialect, no header row) into rows of fields,
/// each field the unescaped bytes of a cell.
///
/// The rows are the records of the data (`csv_records`): csv-core finds the
/// record and field boundaries; this function feeds it the data, grows the
/// two buffers when csv-core reports one full, and splits each record's
/// bytes at its field ends (`build_row_from_buffers`). It always terminates
/// and never fails.
#[verifier::rlimit(60)]
pub fn parse_csv(data: &[u8]) -> (rows: Vec<Vec<Vec<u8>>>)
    requires
        data@.len() < usize::MAX,
    ensures
        rows_view(rows@) == csv_records(data@),
        rows_bytes(rows@) <= data@.len(),
        forall|k: int| 0 <= k < rows@.len() ==> (#[trigger] rows@[k])@.len() >= 1,
{
    let mut core = core_reader_new();
    let mut rows: Vec<Vec<Vec<u8>>> = Vec::with_capacity(estimated_rows(data.len()));
    let mut output: Vec<u8> = vec![0u8; INITIAL_FIELD_BYTES];
    let mut ends: Vec<usize> = vec![0usize; INITIAL_ENDS];
    let mut pos: usize = 0;
    let mut outlen: usize = 0;
    let mut endlen: usize = 0;
    let ghost mark = bom_len(data@, false);
    proof {
        assert(output@.take(0) =~= Seq::<u8>::empty());
        assert(ends@.take(0) =~= Seq::<usize>::empty());
        assert(rows_view(rows@) =~= Seq::<Seq<Seq<u8>>>::empty());
    }
    loop
        invariant_except_break
            data@.len() < usize::MAX,
            pos <= data@.len(),
            outlen <= output@.len(),
            endlen <= ends@.len(),
            outlen <= pos,
            endlen <= pos,
            rows_bytes(rows@) + outlen <= pos,
            mark == bom_len(data@, false),
            core.started@ ==> pos >= mark,
            !core.started@ ==> pos == 0,
            core.state@ == consumed(data@, mark, pos as int, core.started@).state,
            core.output_pos@ == outlen,
            output@.take(outlen as int) == consumed(data@, mark, pos as int, core.started@).cur,
            ends@.take(endlen as int) == consumed(data@, mark, pos as int, core.started@).ends,
            rows_view(rows@) == consumed(data@, mark, pos as int, core.started@).rows,
            forall|k: int| 0 <= k < rows@.len() ==> (#[trigger] rows@[k])@.len() >= 1,
        ensures
            rows_view(rows@) == csv_records(data@),
            rows_bytes(rows@) <= data@.len(),
            forall|k: int| 0 <= k < rows@.len() ==> (#[trigger] rows@[k])@.len() >= 1,
        decreases
            data@.len() - pos,
            (if outlen == output@.len() { 1int } else { 0int }) + (if endlen == ends@.len() {
                1int
            } else {
                0int
            }),
    {
        let input = vstd::slice::slice_subrange(data, pos, data.len());
        let at_end = pos == data.len();
        let ghost old_pos = pos as int;
        let ghost old_outlen = outlen as int;
        let ghost old_endlen = endlen as int;
        let ghost old_started = core.started@;
        let ghost a0 = consumed(data@, mark, pos as int, core.started@);
        let ghost out0 = output@;
        let ghost ends0 = ends@;
        let ghost skip = bom_len(input@, old_started);
        let (res, nin, nout, nend) = core_read_record(
            &mut core,
            input,
            &mut output,
            outlen,
            &mut ends,
            endlen,
        );
        pos = pos + nin;
        outlen = outlen + nout;
        endlen = endlen + nend;
        let ghost c = input@.subrange(skip, nin as int);
        proof {
            let dd = data@.skip(mark);
            if old_started {
                assert(dd.take(pos - mark) =~= dd.take(old_pos - mark) + c);
                crate::grammar::lemma_scan_append(scan_start(), dd.take(old_pos - mark), c);
            } else {
                assert(input@ =~= data@);
                assert(dd.take(pos - mark) =~= c);
            }
            assert(consumed(data@, mark, pos as int, true) == scan_from(a0, c));
            if input@.len() > skip {
                crate::grammar::lemma_scan_call(a0, c);
                assert(output@.take(outlen as int) =~= output@.subrange(0, old_outlen)
                    + output@.subrange(old_outlen, outlen as int));
                assert(out0.subrange(0, old_outlen) =~= out0.take(old_outlen));
                assert(ends@.take(endlen as int) =~= ends@.subrange(0, old_endlen) + ends@.subrange(
                    old_endlen,
                    endlen as int,
                ));
                assert(ends0.subrange(0, old_endlen) =~= ends0.take(old_endlen));
            } else {
                assert(c =~= Seq::<u8>::empty());
                assert(output@.take(outlen as int) =~= out0.take(old_outlen)) by {
                    assert(output@.take(outlen as int) =~= output@.subrange(0, old_outlen));
                    assert(out0.subrange(0, old_outlen) =~= out0.take(old_outlen));
                }
                if res != ReadOutcome::Record {
                    assert(ends@.take(endlen as int) =~= ends0.take(old_endlen)) by {
                        assert(ends@.take(endlen as int) =~= ends@.subrange(0, old_endlen));
                        assert(ends0.subrange(0, old_endlen) =~= ends0.take(old_endlen));
                    }
                } else {
                    assert(ends@.take(endlen as int) =~= ends0.take(old_endlen).push(
                        old_outlen as usize,
                    )) by {
                        assert(ends@.subrange(0, old_endlen) =~= ends0.subrange(0, old_endlen));
                        assert(ends0.subrange(0, old_endlen) =~= ends0.take(old_endlen));
                    }
                }
            }
        }
        match res {
            ReadOutcome::InputEmpty => {},
            ReadOutcome::OutputFull => {
                let n = grown_len(output.len(), outlen);
                let ghost before = output@;
                output.resize(n, 0u8);
                proof {
                    assert(output@.take(outlen as int) =~= before.take(outlen as int));
                }
            },
            ReadOutcome::OutputEndsFull => {
                let n = grown_len(ends.len(), endlen);
                let ghost before = ends@;
                ends.resize(n, 0usize);
                proof {
                    assert(ends@.take(endlen as int) =~= before.take(endlen as int));
                }
            },
            ReadOutcome::Record => {
                let row = build_row_from_buffers(&output, outlen, &ends, endlen);
                let ghost before = rows@;
                proof {
                    lemma_row_is_record(row@, output@, outlen as int, ends@.take(endlen as int));
                }
                rows.push(row);
                proof {
                    assert(rows@.drop_last() =~= before);
                    assert(rows@[rows@.len() - 1]@.len() >= 1);
                    assert forall|k: int| 0 <= k < rows@.len() implies (#[trigger] rows@[k])@.len()
                        >= 1 by {
                        if k < before.len() {
                            assert(rows@[k] == before[k]);
                        }
                    }
                    assert(rows_view(rows@) =~= rows_view(before).push(
                        row@.map_values(|f: Vec<u8>| f@),
                    ));
                }
                outlen = 0;
                endlen = 0;
                proof {
                    assert(output@.take(0) =~= Seq::<u8>::empty());
                    assert(ends@.take(0) =~= Seq::<usize>::empty());
                }
                if at_end {
                    // At the end of the data csv-core has just flushed the
                    // last record; all that is left to report is `End`.
                    proof {
                        assert(data@.skip(mark).take(pos - mark) =~= data@.skip(mark));
                    }
                    break ;
                }
            },
            ReadOutcome::End => {
                proof {
                    assert(data@.skip(mark).take(pos - mark) =~= data@.skip(mark));
                }
                break ;
            },
        }
    }
    rows
}

} // verus!
