use vstd::prelude::*;

verus! {

/// The part of a Ruby object that CSV writing looks at: a string's bytes,
/// an array's elements, or anything else.
pub enum Value {
    Str(Vec<u8>),
    Array(Vec<Value>),
    Other,
}

/// Why a value handed in for writing was rejected.
#[derive(PartialEq, Eq, Structural, Clone, Copy, Debug)]
pub enum TypeError {
    /// An element of the rows array is not itself an array.
    RowNotArray,
    /// A cell of a row is not a string.
    CellNotString,
}

impl TypeError {
    /// The message raised with Ruby's `TypeError`.
    pub fn message(&self) -> (m: &'static str)
        ensures
            *self == TypeError::RowNotArray ==> m@ == "expected Array of Arrays"@,
            *self == TypeError::CellNotString ==> m@ == "expected String values inside row"@,
    {
        match self {
            TypeError::RowNotArray => "expected Array of Arrays",
            TypeError::CellNotString => "expected String values inside row",
        }
    }
}

#[verifier::external_type_specification]
#[verifier::external_body]
pub struct ExCsvError(csv::Error);

/// A failure of a write: a value of the wrong kind (raised as `TypeError`),
/// or an error reported by the CSV writer (raised as `RuntimeError`).
pub enum WriteError {
    Type(TypeError),
    Csv(csv::Error),
}

/// The bytes of a string value; other values contribute none.
pub open spec fn cell_bytes(v: Value) -> Seq<u8> {
    match v {
        Value::Str(b) => b@,
        _ => Seq::empty(),
    }
}

/// Every cell is a string.
pub open spec fn all_strings(cells: Seq<Value>) -> bool {
    forall|i: int| 0 <= i < cells.len() ==> (#[trigger] cells[i]) is Str
}

/// The fields of a row: the bytes of each of its cells, in order.
pub open spec fn row_fields(cells: Seq<Value>) -> Seq<Seq<u8>> {
    cells.map_values(|v: Value| cell_bytes(v))
}

/// The total number of bytes in a sequence of fields.
pub open spec fn total_len(fields: Seq<Seq<u8>>) -> nat
    decreases fields.len(),
{
    if fields.len() == 0 {
        0
    } else {
        total_len(fields.drop_last()) + fields.last().len()
    }
}

/// A record whose size keeps the CSV writer's worst-case space estimate
/// (every byte a quote, every field quoted, delimiters, terminator) within
/// `usize`.
pub open spec fn record_fits(fields: Seq<Seq<u8>>) -> bool {
    2 * total_len(fields) + 3 * fields.len() + 2 <= usize::MAX
}

/// `total_len` of a prefix never exceeds that of the whole sequence.
pub proof fn lemma_total_len_prefix(fields: Seq<Seq<u8>>, k: int)
    requires
        0 <= k <= fields.len(),
    ensures
        total_len(fields.take(k)) <= total_len(fields),
    decreases fields.len() - k,
{
    if k < fields.len() {
        lemma_total_len_prefix(fields, k + 1);
        assert(fields.take(k + 1).drop_last() =~= fields.take(k));
    } else {
        assert(fields.take(k) =~= fields);
    }
}

/// The record written for a row has one field per cell, and each string
/// cell's field is exactly that string's bytes, none added, dropped or
/// changed, whatever their length; the row is all strings exactly when every
/// cell is a string.
pub proof fn law_fields_are_cell_bytes(cells: Seq<Value>)
    ensures
        row_fields(cells).len() == cells.len(),
        forall|i: int|
            0 <= i < cells.len() && (#[trigger] cells[i]) is Str ==> row_fields(cells)[i]
                == cells[i]->Str_0@,
        all_strings(cells) <==> forall|i: int| 0 <= i < cells.len() ==> (#[trigger] cells[i]) is Str,
{
}

} // verus!
