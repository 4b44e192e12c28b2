use crate::format::{
    double_quotes, encode_field, encode_record, encode_records, join_fields, needs_quotes,
    DELIMITER, NEWLINE, QUOTE,
};
use crate::value::{record_fits, row_fields, Value, WriteError};
use crate::writer::{
    generate_line, generate_lines, law_rows_write_iff_well_formed, row_cells, row_failure,
    table_of,
};
use vstd::prelude::*;
use vstd::utf8::{
    decode_utf8, encode_utf8, is_char_boundary, length_of_first_scalar, pop_first_scalar,
    valid_utf8,
};

verus! {

/// `String::from_utf8`: a string holding the bytes when they are valid
/// UTF-8, `None` when they are not.
#[verifier::external_body]
fn string_from_utf8(bytes: Vec<u8>) -> (s: Option<String>)
    ensures
        s is Some <==> valid_utf8(bytes@),
        s is Some ==> s->Some_0@ == decode_utf8(bytes@),
{
    String::from_utf8(bytes).ok()
}

/// The UTF-8 bytes of a string.
pub open spec fn string_bytes(s: String) -> Seq<u8> {
    encode_utf8(s@)
}

/// The fields of a row of strings.
pub open spec fn strings_row(row: Seq<String>) -> Seq<Seq<u8>> {
    row.map_values(|s: String| string_bytes(s))
}

/// The records of rows of strings.
pub open spec fn strings_table(rows: Seq<Vec<String>>) -> Seq<Seq<Seq<u8>>> {
    rows.map_values(|r: Vec<String>| strings_row(r@))
}

/// All rows are as long as the first.
pub open spec fn same_widths(rows: Seq<Vec<String>>) -> bool {
    forall|i: int| 0 <= i < rows.len() ==> (#[trigger] rows[i])@.len() == rows[0]@.len()
}

/// A single ASCII byte is valid UTF-8.
proof fn lemma_ascii_byte_valid(b: u8)
    requires
        b < 0x80,
    ensures
        valid_utf8(seq![b]),
{
    let s = seq![b];
    assert((b & 0x7f) as u32 <= 0x7f) by (bit_vector);
    assert(pop_first_scalar(s) =~= Seq::<u8>::empty());
    assert(valid_utf8(pop_first_scalar(s)));
}

/// Two ASCII bytes are valid UTF-8.
proof fn lemma_ascii_pair_valid(a: u8, b: u8)
    requires
        a < 0x80,
        b < 0x80,
    ensures
        valid_utf8(seq![a, b]),
{
    lemma_ascii_byte_valid(a);
    lemma_ascii_byte_valid(b);
    vstd::utf8::valid_utf8_concat(seq![a], seq![b]);
    assert(seq![a] + seq![b] =~= seq![a, b]);
}

/// Doubling the quotes of two pieces one after the other is doubling those
/// of the whole.
proof fn lemma_double_quotes_append(a: Seq<u8>, b: Seq<u8>)
    ensures
        double_quotes(a + b) == double_quotes(a) + double_quotes(b),
    decreases b.len(),
{
    if b.len() == 0 {
        assert(a + b =~= a);
        assert(double_quotes(a) + double_quotes(b) =~= double_quotes(a));
    } else {
        lemma_double_quotes_append(a, b.drop_last());
        assert((a + b).drop_last() =~= a + b.drop_last());
        assert((a + b).last() == b.last());
        let tail = if b.last() == QUOTE {
            seq![QUOTE, QUOTE]
        } else {
            seq![b.last()]
        };
        assert(double_quotes(a) + double_quotes(b.drop_last()) + tail =~= double_quotes(a) + (
        double_quotes(b.drop_last()) + tail));
    }
}

/// Bytes without a quote are left as they are.
proof fn lemma_double_quotes_no_quote(a: Seq<u8>)
    requires
        forall|i: int| 0 <= i < a.len() ==> #[trigger] a[i] != QUOTE,
    ensures
        double_quotes(a) == a,
    decreases a.len(),
{
    if a.len() > 0 {
        assert forall|i: int| 0 <= i < a.drop_last().len() implies #[trigger] a.drop_last()[i]
            != QUOTE by {
            assert(a.drop_last()[i] == a[i]);
        }
        lemma_double_quotes_no_quote(a.drop_last());
        assert(a.drop_last() + seq![a.last()] =~= a);
    }
}

/// Doubling quotes keeps UTF-8 valid: a quote is a whole scalar, and the
/// bytes of longer scalars are never quotes.
proof fn lemma_double_quotes_valid(f: Seq<u8>)
    requires
        valid_utf8(f),
    ensures
        valid_utf8(double_quotes(f)),
    decreases f.len(),
{
    if f.len() == 0 {
        assert(double_quotes(f) =~= Seq::<u8>::empty());
    } else {
        let k = length_of_first_scalar(f);
        let head = f.subrange(0, k);
        let rest = pop_first_scalar(f);
        assert(1 <= k <= f.len());
        assert(is_char_boundary(f, k)) by {
            assert(is_char_boundary(rest, 0));
        }
        vstd::utf8::valid_utf8_split(f, k);
        assert(head + rest =~= f);
        lemma_double_quotes_valid(rest);
        lemma_double_quotes_append(head, rest);
        if k == 1 {
            assert(head =~= seq![f[0]]);
            assert(double_quotes(head) == double_quotes(Seq::<u8>::empty()) + if f[0] == QUOTE {
                seq![QUOTE, QUOTE]
            } else {
                seq![f[0]]
            }) by {
                assert(head.drop_last() =~= Seq::<u8>::empty());
            }
            if f[0] == QUOTE {
                lemma_ascii_pair_valid(QUOTE, QUOTE);
                assert(double_quotes(head) =~= seq![QUOTE, QUOTE]);
            } else {
                lemma_ascii_byte_valid(f[0]);
                assert(double_quotes(head) =~= seq![f[0]]);
            }
        } else {
            assert forall|i: int| 0 <= i < head.len() implies #[trigger] head[i] != QUOTE by {
                assert(head[i] == f[i]);
            }
            lemma_double_quotes_no_quote(head);
        }
        vstd::utf8::valid_utf8_concat(double_quotes(head), double_quotes(rest));
    }
}

/// The CSV text of a valid UTF-8 field is valid UTF-8.
proof fn lemma_encode_field_valid(f: Seq<u8>)
    requires
        valid_utf8(f),
    ensures
        valid_utf8(encode_field(f)),
{
    if needs_quotes(f) {
        lemma_double_quotes_valid(f);
        lemma_ascii_byte_valid(QUOTE);
        vstd::utf8::valid_utf8_concat(seq![QUOTE], double_quotes(f));
        vstd::utf8::valid_utf8_concat(seq![QUOTE] + double_quotes(f), seq![QUOTE]);
    }
}

/// Joining valid UTF-8 fields gives valid UTF-8.
proof fn lemma_join_fields_valid(fields: Seq<Seq<u8>>)
    requires
        forall|i: int| 0 <= i < fields.len() ==> valid_utf8(#[trigger] fields[i]),
    ensures
        valid_utf8(join_fields(fields)),
    decreases fields.len(),
{
    if fields.len() == 0 {
    } else if fields.len() == 1 {
        lemma_encode_field_valid(fields[0]);
    } else {
        let front = fields.drop_last();
        assert forall|i: int| 0 <= i < front.len() implies valid_utf8(#[trigger] front[i]) by {
            assert(front[i] == fields[i]);
        }
        lemma_join_fields_valid(front);
        lemma_ascii_byte_valid(DELIMITER);
        lemma_encode_field_valid(fields.last());
        vstd::utf8::valid_utf8_concat(join_fields(front), seq![DELIMITER]);
        vstd::utf8::valid_utf8_concat(join_fields(front) + seq![DELIMITER], encode_field(fields.last()));
    }
}

/// The CSV text of records of valid UTF-8 fields is valid UTF-8.
pub proof fn law_text_of_utf8_fields_is_utf8(records: Seq<Seq<Seq<u8>>>)
    requires
        forall|i: int, j: int|
            0 <= i < records.len() && 0 <= j < records[i].len() ==> valid_utf8(
                #[trigger] records[i][j],
            ),
    ensures
        valid_utf8(encode_records(records)),
    decreases records.len(),
{
    if records.len() > 0 {
        let front = records.drop_last();
        assert forall|i: int, j: int|
            0 <= i < front.len() && 0 <= j < front[i].len() implies valid_utf8(
            #[trigger] front[i][j],
        ) by {
            assert(front[i] == records[i]);
        }
        law_text_of_utf8_fields_is_utf8(front);
        let last = records.last();
        assert forall|j: int| 0 <= j < last.len() implies valid_utf8(#[trigger] last[j]) by {
            assert(records[records.len() - 1][j] == last[j]);
        }
        lemma_join_fields_valid(last);
        let body = join_fields(last);
        if body.len() == 0 {
            lemma_ascii_pair_valid(QUOTE, QUOTE);
        }
        let head = if body.len() == 0 {
            seq![QUOTE, QUOTE]
        } else {
            body
        };
        lemma_ascii_byte_valid(NEWLINE);
        vstd::utf8::valid_utf8_concat(head, seq![NEWLINE]);
        vstd::utf8::valid_utf8_concat(encode_records(front), encode_record(last));
    }
}

/// The cells of a row of strings: each string's UTF-8 bytes.
fn string_cells(row: &Vec<String>) -> (cells: Vec<Value>)
    ensures
        cells@.len() == row@.len(),
        crate::value::all_strings(cells@),
        row_fields(cells@) == strings_row(row@),
{
    let mut cells: Vec<Value> = Vec::with_capacity(row.len());
    let mut i: usize = 0;
    while i < row.len()
        invariant
            i <= row@.len(),
            cells@.len() == i,
            forall|j: int| 0 <= j < i ==> (#[trigger] cells@[j]) is Str,
            forall|j: int|
                0 <= j < i ==> crate::value::cell_bytes(#[trigger] cells@[j]) == string_bytes(
                    row@[j],
                ),
        decreases row@.len() - i,
    {
        let bytes = vstd::slice::slice_to_vec(row[i].as_str().as_bytes());
        cells.push(Value::Str(bytes));
        i = i + 1;
    }
    proof {
        assert(row_fields(cells@) =~= strings_row(row@));
    }
    cells
}

/// The strings of a row, as the library's values.
fn string_rows(rows: &Vec<Vec<String>>) -> (values: Vec<Value>)
    ensures
        values@.len() == rows@.len(),
        forall|i: int|
            0 <= i < values@.len() ==> row_failure(#[trigger] values@[i]) is None && row_fields(
                row_cells(values@[i]),
            ) == strings_row(rows@[i]@) && row_cells(values@[i]).len() == rows@[i]@.len(),
{
    let mut values: Vec<Value> = Vec::with_capacity(rows.len());
    let mut i: usize = 0;
    while i < rows.len()
        invariant
            i <= rows@.len(),
            values@.len() == i,
            forall|j: int|
                0 <= j < i ==> row_failure(#[trigger] values@[j]) is None && row_fields(
                    row_cells(values@[j]),
                ) == strings_row(rows@[j]@) && row_cells(values@[j]).len() == rows@[j]@.len(),
        decreases rows@.len() - i,
    {
        let cells = string_cells(&rows[i]);
        values.push(Value::Array(cells));
        i = i + 1;
    }
    values
}

/// Every field of the records of strings is valid UTF-8.
proof fn lemma_strings_table_utf8(rows: Seq<Vec<String>>)
    ensures
        forall|i: int, j: int|
            0 <= i < strings_table(rows).len() && 0 <= j < strings_table(rows)[i].len()
                ==> valid_utf8(#[trigger] strings_table(rows)[i][j]),
{
    assert forall|i: int, j: int|
        0 <= i < strings_table(rows).len() && 0 <= j < strings_table(rows)[i].len() implies valid_utf8(
        #[trigger] strings_table(rows)[i][j],
    ) by {
        vstd::utf8::encode_utf8_valid_utf8(rows[i]@[j]@);
    }
}

/// Writes rows of strings as CSV text, one line per row. Every row must have
/// as many strings as the first.
pub fn generate_string_lines(rows: &Vec<Vec<String>>) -> (r: Result<String, csv::Error>)
    requires
        forall|i: int| 0 <= i < rows@.len() ==> record_fits(strings_row((#[trigger] rows@[i])@)),
    ensures
        r is Ok <==> same_widths(rows@),
        r is Ok ==> string_bytes(r->Ok_0) == encode_records(strings_table(rows@)),
{
    let values = string_rows(rows);
    proof {
        assert forall|i: int| 0 <= i < values@.len() implies record_fits(
            row_fields(row_cells(#[trigger] values@[i])),
        ) by {
            assert(record_fits(strings_row(rows@[i]@)));
        }
        law_rows_write_iff_well_formed(values@);
        assert(table_of(values@) =~= strings_table(rows@));
        if same_widths(rows@) {
            assert(crate::writer::rows_well_formed(values@));
        }
        if crate::writer::rows_well_formed(values@) {
            assert forall|i: int| 0 <= i < rows@.len() implies (#[trigger] rows@[i])@.len()
                == rows@[0]@.len() by {
                assert(row_cells(values@[i]).len() == row_cells(values@[0]).len());
            }
        }
        lemma_strings_table_utf8(rows@);
        law_text_of_utf8_fields_is_utf8(strings_table(rows@));
        crate::writer::lemma_rows_table_no_type_failure(values@);
    }
    match generate_lines(&values) {
        Ok(bytes) => {
            proof {
                vstd::utf8::decode_utf8_encode_utf8(bytes@);
            }
            match string_from_utf8(bytes) {
                Some(text) => Ok(text),
                None => {
                    proof {
                        assert(false);
                    }
                    Ok(String::new())
                },
            }
        },
        Err(WriteError::Csv(e)) => Err(e),
        Err(WriteError::Type(_)) => {
            proof {
                assert(false);
            }
            Ok(String::new())
        },
    }
}

/// Writes one row of strings as a line of CSV text.
pub fn generate_string_line(row: &Vec<String>) -> (line: String)
    requires
        record_fits(strings_row(row@)),
    ensures
        string_bytes(line) == encode_record(strings_row(row@)),
{
    let cells = string_cells(row);
    proof {
        let one: Seq<Vec<String>> = seq![*row];
        lemma_strings_table_utf8(one);
        assert(strings_table(one) =~= seq![strings_row(row@)]);
        assert(strings_table(one)[0] == strings_row(row@));
        law_text_of_utf8_fields_is_utf8(seq![strings_row(row@)]);
        crate::format::lemma_encode_single_record(strings_row(row@));
    }
    match generate_line(&cells) {
        Ok(bytes) => {
            proof {
                vstd::utf8::decode_utf8_encode_utf8(bytes@);
            }
            match string_from_utf8(bytes) {
                Some(text) => text,
                None => {
                    proof {
                        assert(false);
                    }
                    String::new()
                },
            }
        },
        Err(_) => {
            proof {
                assert(false);
            }
            String::new()
        },
    }
}

/// The bytes of a string as text: its UTF-8 encoding.
pub proof fn law_string_bytes_are_utf8(s: String)
    ensures
        string_bytes(s) == encode_utf8(s@),
{
}

/// A row of strings is written with one field per string, each field the
/// string's own UTF-8 bytes, in order, whatever their length.
pub proof fn law_string_fields_are_the_strings(row: Seq<String>)
    ensures
        strings_row(row).len() == row.len(),
        forall|i: int| 0 <= i < row.len() ==> #[trigger] strings_row(row)[i] == encode_utf8(row[i]@),
{
}

/// Rows of strings are written as one record per row, in order, each field
/// the UTF-8 bytes of the string in that place.
pub proof fn law_string_records_are_the_rows(rows: Seq<Vec<String>>)
    ensures
        strings_table(rows).len() == rows.len(),
        forall|i: int| 0 <= i < rows.len() ==> (#[trigger] strings_table(rows)[i]).len() == rows[i]@.len(),
        forall|i: int, j: int|
            0 <= i < rows.len() && 0 <= j < rows[i]@.len() ==> #[trigger] strings_table(rows)[i][j]
                == encode_utf8(rows[i]@[j]@),
{
    assert forall|i: int, j: int|
        0 <= i < rows.len() && 0 <= j < rows[i]@.len() implies #[trigger] strings_table(rows)[i][j]
        == encode_utf8(rows[i]@[j]@) by {
        assert(strings_table(rows)[i] == strings_row(rows[i]@));
    }
}

/// The lines of rows of strings, each as `generate_string_line` writes it,
/// one after another.
pub open spec fn string_lines_of(rows: Seq<Vec<String>>) -> Seq<u8>
    decreases rows.len(),
{
    if rows.len() == 0 {
        Seq::empty()
    } else {
        string_lines_of(rows.drop_last()) + encode_record(strings_row(rows.last()@))
    }
}

/// The text that `generate_string_lines` writes is the text that
/// `generate_string_line` writes for each row, joined in order: no row is
/// dropped, repeated or moved.
pub proof fn law_string_lines_are_joined_lines(rows: Seq<Vec<String>>)
    ensures
        encode_records(strings_table(rows)) == string_lines_of(rows),
    decreases rows.len(),
{
    if rows.len() > 0 {
        law_string_lines_are_joined_lines(rows.drop_last());
        assert(strings_table(rows).drop_last() =~= strings_table(rows.drop_last()));
        assert(strings_table(rows).last() == strings_row(rows.last()@));
    }
}

} // verus!
