use crate::value::{
    all_strings, row_fields, total_len, TypeError, Value, WriteError,
};
use vstd::prelude::*;

verus! {

#[verifier::external_type_specification]
#[verifier::external_body]
pub struct ExByteRecord(csv::ByteRecord);

/// The fields that a `csv::ByteRecord` holds, in order.
pub uninterp spec fn byte_record_fields(r: csv::ByteRecord) -> Seq<Seq<u8>>;

/// `csv::ByteRecord::new`: a record with no fields.
#[verifier::external_body]
pub(crate) fn byte_record_new() -> (r: csv::ByteRecord)
    ensures
        byte_record_fields(r) == Seq::<Seq<u8>>::empty(),
{
    csv::ByteRecord::new()
}

/// `csv::ByteRecord::clear`: afterwards the record has no fields.
#[verifier::external_body]
fn byte_record_clear(r: &mut csv::ByteRecord)
    ensures
        byte_record_fields(*final(r)) == Seq::<Seq<u8>>::empty(),
{
    r.clear()
}

/// `csv::ByteRecord::push_field`: appends a copy of `field` as the last field.
/// The record's byte count must stay within `usize`, since the end offset of
/// the new field is computed by an unchecked addition.
#[verifier::external_body]
fn byte_record_push_field(r: &mut csv::ByteRecord, field: &[u8])
    requires
        total_len(byte_record_fields(*old(r))) + field@.len() <= usize::MAX,
    ensures
        byte_record_fields(*final(r)) == byte_record_fields(*old(r)).push(field@),
{
    r.push_field(field)
}

/// `csv::ByteRecord::len`: the number of fields.
#[verifier::external_body]
fn byte_record_len(r: &csv::ByteRecord) -> (n: usize)
    ensures
        n == byte_record_fields(*r).len(),
{
    r.len()
}

/// `csv::ByteRecord::get`: the field at index `i`, or `None` past the end.
#[verifier::external_body]
fn byte_record_get(r: &csv::ByteRecord, i: usize) -> (f: Option<&[u8]>)
    ensures
        i < byte_record_fields(*r).len() ==> f is Some && f.unwrap()@ == byte_record_fields(*r)[i as int],
        i >= byte_record_fields(*r).len() ==> f is None,
{
    r.get(i)
}

/// Fills `record` with the bytes of the cells of `row`, after clearing it.
///
/// Fails with `TypeError::CellNotString` at the first cell that is not a
/// string; the record then holds the cells before it.
pub fn fill_record(row: &Vec<Value>, record: &mut csv::ByteRecord) -> (r: Result<(), WriteError>)
    requires
        total_len(row_fields(row@)) <= usize::MAX,
    ensures
        r is Ok <==> all_strings(row@),
        r is Ok ==> byte_record_fields(*final(record)) == row_fields(row@),
        r is Err ==> r matches Err(WriteError::Type(TypeError::CellNotString)),
        r is Err ==> exists|k: int|
            0 <= k < row@.len() && !(row@[k] is Str) && all_strings(row@.take(k))
                && byte_record_fields(*final(record)) == row_fields(row@.take(k)),
{
    byte_record_clear(record);
    let mut i: usize = 0;
    while i < row.len()
        invariant
            i <= row@.len(),
            all_strings(row@.take(i as int)),
            byte_record_fields(*record) == row_fields(row@.take(i as int)),
            total_len(row_fields(row@)) <= usize::MAX,
        decreases row@.len() - i,
    {
        match &row[i] {
            Value::Str(bytes) => {
                proof {
                    assert(row_fields(row@).take(i + 1) =~= row_fields(row@.take(i + 1)));
                    crate::value::lemma_total_len_prefix(row_fields(row@), i + 1);
                    assert(row_fields(row@.take(i + 1)).drop_last() =~= row_fields(row@.take(i as int)));
                }
                byte_record_push_field(record, bytes.as_slice());
                proof {
                    assert(row_fields(row@.take(i + 1)) =~= row_fields(row@.take(i as int)).push(bytes@));
                    assert forall|j: int| 0 <= j < i + 1 implies (#[trigger] row@.take(i + 1)[j]) is Str by {
                        if j < i {
                            assert(row@.take(i + 1)[j] == row@.take(i as int)[j]);
                        }
                    }
                }
                i = i + 1;
            },
            _ => {
                return Err(WriteError::Type(TypeError::CellNotString));
            },
        }
    }
    proof {
        assert(row@.take(i as int) =~= row@);
    }
    Ok(())
}

/// The fields of `record`, copied out.
pub fn record_fields(record: &csv::ByteRecord) -> (fields: Vec<Vec<u8>>)
    ensures
        fields@.len() == byte_record_fields(*record).len(),
        forall|i: int| 0 <= i < fields@.len() ==> (#[trigger] fields@[i])@ == byte_record_fields(*record)[i],
{
    let n = byte_record_len(record);
    let mut fields: Vec<Vec<u8>> = Vec::new();
    let mut i: usize = 0;
    while i < n
        invariant
            i <= n,
            n == byte_record_fields(*record).len(),
            fields@.len() == i,
            forall|j: int| 0 <= j < i ==> (#[trigger] fields@[j])@ == byte_record_fields(*record)[j],
        decreases n - i,
    {
        match byte_record_get(record, i) {
            Some(field) => {
                fields.push(vstd::slice::slice_to_vec(field));
            },
            None => {
                proof {
                    assert(false);
                }
            },
        }
        i = i + 1;
    }
    fields
}

} // verus!
