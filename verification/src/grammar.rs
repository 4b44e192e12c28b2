use crate::format::{DELIMITER, QUOTE};
use crate::reader::record_field;
use vstd::prelude::*;

verus! {

/// The carriage return byte.
pub const CR: u8 = 0x0d;

/// The line feed byte.
pub const LF: u8 = 0x0a;

/// Where a CSV reader of the default dialect stands between two bytes.
#[derive(PartialEq, Eq, Structural, Clone, Copy, Debug)]
pub enum CsvState {
    /// Before a record (also between blank lines).
    StartRecord,
    /// Before a field, after a byte that ended nothing.
    StartField,
    /// Inside an unquoted field.
    InField,
    /// Inside a quoted field.
    InQuotedField,
    /// Just after a quote inside a quoted field.
    InDoubleEscapedQuote,
    /// Just after the delimiter that ended a field.
    EndFieldDelim,
    /// Just after the byte that ended a record.
    EndRecord,
    /// Just after a `\r` that ended a record (a `\n` may follow).
    Crlf,
}

/// A record terminator byte: `\r` or `\n`.
pub open spec fn is_terminator(b: u8) -> bool {
    b == CR || b == LF
}

/// States reached when a field has just ended.
pub open spec fn field_final(s: CsvState) -> bool {
    s == CsvState::EndFieldDelim || s == CsvState::EndRecord || s == CsvState::Crlf
}

/// States reached when a record has just ended.
pub open spec fn record_final(s: CsvState) -> bool {
    s == CsvState::EndRecord || s == CsvState::Crlf
}

/// States in which part of a record has been read and not yet ended: at the
/// end of the data this part becomes the last record.
pub open spec fn pending(s: CsvState) -> bool {
    !(s == CsvState::StartRecord || s == CsvState::EndRecord || s == CsvState::Crlf)
}

/// The state after a terminator that ends a record.
pub open spec fn record_term(c: u8) -> (CsvState, bool) {
    if c == CR {
        (CsvState::Crlf, false)
    } else {
        (CsvState::EndRecord, false)
    }
}

/// A byte at the start of a field.
pub open spec fn from_start_field(c: u8) -> (CsvState, bool) {
    if c == QUOTE {
        (CsvState::InQuotedField, false)
    } else if c == DELIMITER {
        (CsvState::EndFieldDelim, false)
    } else if is_terminator(c) {
        record_term(c)
    } else {
        (CsvState::InField, true)
    }
}

/// A byte at the start of a record: terminators are skipped (blank lines).
pub open spec fn from_start_record(c: u8) -> (CsvState, bool) {
    if is_terminator(c) {
        (CsvState::StartRecord, false)
    } else {
        from_start_field(c)
    }
}

/// One byte read in state `s`: the next state, and whether the byte is part
/// of the current field's content.
pub open spec fn dfa_step(s: CsvState, c: u8) -> (CsvState, bool) {
    match s {
        CsvState::StartRecord => from_start_record(c),
        CsvState::StartField => from_start_field(c),
        CsvState::InField => if c == DELIMITER {
            (CsvState::EndFieldDelim, false)
        } else if is_terminator(c) {
            record_term(c)
        } else {
            (CsvState::InField, true)
        },
        CsvState::InQuotedField => if c == QUOTE {
            (CsvState::InDoubleEscapedQuote, false)
        } else {
            (CsvState::InQuotedField, true)
        },
        CsvState::InDoubleEscapedQuote => if c == QUOTE {
            (CsvState::InQuotedField, true)
        } else if c == DELIMITER {
            (CsvState::EndFieldDelim, false)
        } else if is_terminator(c) {
            record_term(c)
        } else {
            (CsvState::InField, true)
        },
        CsvState::EndFieldDelim => from_start_field(c),
        CsvState::EndRecord => from_start_record(c),
        CsvState::Crlf => if c == LF {
            (CsvState::StartRecord, false)
        } else {
            from_start_record(c)
        },
    }
}

/// The state after reading the bytes `c` from state `s`.
pub open spec fn run_state(s: CsvState, c: Seq<u8>) -> CsvState
    decreases c.len(),
{
    if c.len() == 0 {
        s
    } else {
        dfa_step(run_state(s, c.drop_last()), c.last()).0
    }
}

/// The content bytes met while reading `c` from state `s`.
pub open spec fn copies(s: CsvState, c: Seq<u8>) -> Seq<u8>
    decreases c.len(),
{
    if c.len() == 0 {
        Seq::empty()
    } else {
        copies(s, c.drop_last()) + if dfa_step(run_state(s, c.drop_last()), c.last()).1 {
            seq![c.last()]
        } else {
            Seq::<u8>::empty()
        }
    }
}

/// The field ends met while reading `c` from state `s`: each the number of
/// content bytes of the record so far, `base` of them before `c`.
pub open spec fn ends_from(s: CsvState, c: Seq<u8>, base: usize) -> Seq<usize>
    decreases c.len(),
{
    if c.len() == 0 {
        Seq::empty()
    } else {
        let prev = ends_from(s, c.drop_last(), base);
        if field_final(run_state(s, c)) {
            prev.push((base + copies(s, c).len()) as usize)
        } else {
            prev
        }
    }
}

/// No record ends before the last byte of `c`.
pub open spec fn no_close_before(s: CsvState, c: Seq<u8>) -> bool {
    forall|k: int| 1 <= k < c.len() ==> !record_final(#[trigger] run_state(s, c.take(k)))
}

/// The fields of a record whose content bytes are `cur` and whose field ends
/// are `ends`.
pub open spec fn record_row(cur: Seq<u8>, ends: Seq<usize>) -> Seq<Seq<u8>> {
    Seq::new(ends.len(), |i: int| record_field(cur, ends, cur.len() as int, i))
}

/// Reading so far: the state, the content bytes and field ends of the record
/// being read, and the records read.
pub struct CsvScan {
    pub state: CsvState,
    pub cur: Seq<u8>,
    pub ends: Seq<usize>,
    pub rows: Seq<Seq<Seq<u8>>>,
}

/// Nothing read yet.
pub open spec fn scan_start() -> CsvScan {
    CsvScan { state: CsvState::StartRecord, cur: Seq::empty(), ends: Seq::empty(), rows: Seq::empty() }
}

/// Reading one more byte.
pub open spec fn feed(acc: CsvScan, c: u8) -> CsvScan {
    let (s2, keep) = dfa_step(acc.state, c);
    let cur2 = if keep {
        acc.cur.push(c)
    } else {
        acc.cur
    };
    let ends2 = if field_final(s2) {
        acc.ends.push(cur2.len() as usize)
    } else {
        acc.ends
    };
    if record_final(s2) {
        CsvScan {
            state: s2,
            cur: Seq::empty(),
            ends: Seq::empty(),
            rows: acc.rows.push(record_row(cur2, ends2)),
        }
    } else {
        CsvScan { state: s2, cur: cur2, ends: ends2, rows: acc.rows }
    }
}

/// Reading the bytes `c` after `acc`.
pub open spec fn scan_from(acc: CsvScan, c: Seq<u8>) -> CsvScan
    decreases c.len(),
{
    if c.len() == 0 {
        acc
    } else {
        feed(scan_from(acc, c.drop_last()), c.last())
    }
}

/// The end of the data: a record still being read is the last record, its
/// last field ending at the end of its content.
pub open spec fn finish(acc: CsvScan) -> Seq<Seq<Seq<u8>>> {
    if pending(acc.state) {
        acc.rows.push(record_row(acc.cur, acc.ends.push(acc.cur.len() as usize)))
    } else {
        acc.rows
    }
}

/// The bytes start with the UTF-8 byte order mark `EF BB BF`.
pub open spec fn starts_with_bom(s: Seq<u8>) -> bool {
    s.len() >= 3 && s[0] == 0xef && s[1] == 0xbb && s[2] == 0xbf
}

/// The number of leading bytes that a reader skips as a byte order mark:
/// 3 when it has not started and the input starts with one, else 0.
pub open spec fn bom_len(input: Seq<u8>, started: bool) -> int {
    if !started && starts_with_bom(input) {
        3
    } else {
        0
    }
}

/// The records of CSV data in the default dialect: a leading byte order
/// mark is skipped; `,` separates fields; a field that starts with `"` is
/// quoted, `""` inside it standing for one `"`, and may hold `,`, `\r` and
/// `\n`; `\r`, `\n` or `\r\n` ends a record; blank lines give no record;
/// and a record left open at the end of the data is the last one.
pub open spec fn csv_records(data: Seq<u8>) -> Seq<Seq<Seq<u8>>> {
    finish(scan_from(scan_start(), data.skip(bom_len(data, false))))
}

/// Reading `a` then `b` is reading `a + b`.
pub proof fn lemma_scan_append(acc: CsvScan, a: Seq<u8>, b: Seq<u8>)
    ensures
        scan_from(acc, a + b) == scan_from(scan_from(acc, a), b),
    decreases b.len(),
{
    if b.len() == 0 {
        assert(a + b =~= a);
    } else {
        lemma_scan_append(acc, a, b.drop_last());
        assert((a + b).drop_last() =~= a + b.drop_last());
        assert((a + b).last() == b.last());
    }
}

/// Reading bytes in which no record ends before the last byte: the state is
/// `run_state`; the content bytes and field ends met are `copies` and
/// `ends_from`; and a record is completed exactly when the last byte ends
/// one.
pub proof fn lemma_scan_call(acc: CsvScan, c: Seq<u8>)
    requires
        no_close_before(acc.state, c),
        acc.cur.len() <= usize::MAX,
    ensures
        ({
            let s = acc.state;
            let cur2 = acc.cur + copies(s, c);
            let ends2 = acc.ends + ends_from(s, c, acc.cur.len() as usize);
            let r = scan_from(acc, c);
            &&& r.state == run_state(s, c)
            &&& (c.len() > 0 && record_final(run_state(s, c))) ==> r == CsvScan {
                state: run_state(s, c),
                cur: Seq::empty(),
                ends: Seq::empty(),
                rows: acc.rows.push(record_row(cur2, ends2)),
            }
            &&& !(c.len() > 0 && record_final(run_state(s, c))) ==> r == CsvScan {
                state: run_state(s, c),
                cur: cur2,
                ends: ends2,
                rows: acc.rows,
            }
        }),
    decreases c.len(),
{
    let s = acc.state;
    if c.len() == 0 {
        assert(acc.cur + copies(s, c) =~= acc.cur);
        assert(acc.ends + ends_from(s, c, acc.cur.len() as usize) =~= acc.ends);
    } else {
        let c1 = c.drop_last();
        assert forall|k: int| 1 <= k < c1.len() implies !record_final(
            #[trigger] run_state(s, c1.take(k)),
        ) by {
            assert(c1.take(k) =~= c.take(k));
            assert(!record_final(run_state(s, c.take(k))));
        }
        lemma_scan_call(acc, c1);
        if c1.len() > 0 {
            assert(c.take(c1.len() as int) =~= c1);
            assert(!record_final(run_state(s, c.take(c1.len() as int))));
        }
        let x = c.last();
        let base = acc.cur.len() as usize;
        let t = run_state(s, c1);
        let step = dfa_step(t, x);
        let cp1 = copies(s, c1);
        let add = if step.1 {
            seq![x]
        } else {
            Seq::<u8>::empty()
        };
        assert(copies(s, c) == cp1 + add);
        assert(acc.cur + copies(s, c) =~= (acc.cur + cp1) + add);
        if step.1 {
            assert((acc.cur + cp1).push(x) =~= (acc.cur + cp1) + add);
        } else {
            assert(acc.cur + cp1 =~= (acc.cur + cp1) + add);
        }
        let e1 = ends_from(s, c1, base);
        if field_final(step.0) {
            assert(acc.ends + ends_from(s, c, base) =~= (acc.ends + e1).push(
                (base + copies(s, c).len()) as usize,
            ));
            assert(((acc.cur + cp1) + add).len() == base + copies(s, c).len());
        } else {
            assert(acc.ends + ends_from(s, c, base) =~= acc.ends + e1);
        }
    }
}

} // verus!
