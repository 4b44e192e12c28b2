use vstd::prelude::*;

verus! {

/// The double quote, `"`.
pub const QUOTE: u8 = 0x22;

/// The field delimiter, `,`.
pub const DELIMITER: u8 = 0x2c;

/// The record terminator, `\n`.
pub const NEWLINE: u8 = 0x0a;

/// The carriage return, `\r`.
pub const CARRIAGE_RETURN: u8 = 0x0d;

/// A byte that forces its field into quotes: the delimiter, the quote, or a
/// line break (`\r` too, since readers take it for a record terminator).
pub open spec fn is_special_byte(b: u8) -> bool {
    b == DELIMITER || b == QUOTE || b == CARRIAGE_RETURN || b == NEWLINE
}

/// A field is quoted exactly when it holds a special byte.
pub open spec fn needs_quotes(field: Seq<u8>) -> bool {
    exists|i: int| 0 <= i < field.len() && is_special_byte(#[trigger] field[i])
}

/// The field with every quote doubled.
pub open spec fn double_quotes(field: Seq<u8>) -> Seq<u8>
    decreases field.len(),
{
    if field.len() == 0 {
        Seq::empty()
    } else {
        double_quotes(field.drop_last()) + if field.last() == QUOTE {
            seq![QUOTE, QUOTE]
        } else {
            seq![field.last()]
        }
    }
}

/// The CSV text of one field.
pub open spec fn encode_field(field: Seq<u8>) -> Seq<u8> {
    if needs_quotes(field) {
        seq![QUOTE] + double_quotes(field) + seq![QUOTE]
    } else {
        field
    }
}

/// The encoded fields, separated by the delimiter.
pub open spec fn join_fields(fields: Seq<Seq<u8>>) -> Seq<u8>
    decreases fields.len(),
{
    if fields.len() == 0 {
        Seq::empty()
    } else if fields.len() == 1 {
        encode_field(fields[0])
    } else {
        join_fields(fields.drop_last()) + seq![DELIMITER] + encode_field(fields.last())
    }
}

/// The CSV text of one record: its joined fields and a newline. A record
/// whose text would otherwise be empty (no fields, or one empty field) is
/// written as `""` so that it still reads back as a record.
pub open spec fn encode_record(fields: Seq<Seq<u8>>) -> Seq<u8> {
    let body = join_fields(fields);
    (if body.len() == 0 { seq![QUOTE, QUOTE] } else { body }) + seq![NEWLINE]
}

/// The CSV text of a sequence of records.
pub open spec fn encode_records(records: Seq<Seq<Seq<u8>>>) -> Seq<u8>
    decreases records.len(),
{
    if records.len() == 0 {
        Seq::empty()
    } else {
        encode_records(records.drop_last()) + encode_record(records.last())
    }
}

/// The text of a single record written alone.
pub proof fn lemma_encode_single_record(fields: Seq<Seq<u8>>)
    ensures
        encode_records(seq![fields]) == encode_record(fields),
{
    let one = seq![fields];
    assert(one.drop_last() =~= Seq::<Seq<Seq<u8>>>::empty());
    assert(encode_records(one.drop_last()) == Seq::<u8>::empty());
    assert(Seq::<u8>::empty() + encode_record(fields) =~= encode_record(fields));
}

/// A field with no special byte is written as it is.
pub proof fn law_plain_field_is_unquoted(field: Seq<u8>)
    requires
        forall|i: int| 0 <= i < field.len() ==> !is_special_byte(#[trigger] field[i]),
    ensures
        encode_field(field) == field,
{
}

/// The text of a record has at least two bytes and ends in a newline.
pub proof fn law_record_ends_in_newline(fields: Seq<Seq<u8>>)
    ensures
        encode_record(fields).len() >= 2,
        encode_record(fields).last() == NEWLINE,
{
}

/// The text of records written one after another is the text of the first
/// records followed by that of the rest.
pub proof fn lemma_encode_records_append(a: Seq<Seq<Seq<u8>>>, b: Seq<Seq<Seq<u8>>>)
    ensures
        encode_records(a + b) == encode_records(a) + encode_records(b),
    decreases b.len(),
{
    if b.len() == 0 {
        assert(a + b =~= a);
    } else {
        lemma_encode_records_append(a, b.drop_last());
        assert((a + b).drop_last() =~= a + b.drop_last());
        assert((a + b).last() == b.last());
    }
}

} // verus!
