use crate::format::{
    double_quotes, encode_field, encode_record, encode_records, is_special_byte, join_fields,
    needs_quotes, DELIMITER, NEWLINE, QUOTE,
};
use crate::grammar::{
    csv_records, feed, record_row, scan_from, scan_start, starts_with_bom, CsvScan, CsvState,
};
use crate::reader::{ends_well_formed, law_well_formed_ends_give_exact_fields};
use vstd::prelude::*;

verus! {

/// The fields of a record put one after another.
pub open spec fn flatten(fs: Seq<Seq<u8>>) -> Seq<u8>
    decreases fs.len(),
{
    if fs.len() == 0 {
        Seq::empty()
    } else {
        flatten(fs.drop_last()) + fs.last()
    }
}

/// The end of each field within `flatten(fs)`.
pub open spec fn cum_ends(fs: Seq<Seq<u8>>) -> Seq<usize>
    decreases fs.len(),
{
    if fs.len() == 0 {
        Seq::empty()
    } else {
        cum_ends(fs.drop_last()).push(flatten(fs).len() as usize)
    }
}

/// A state in which a new field begins.
pub open spec fn at_field_start(s: CsvState) -> bool {
    s == CsvState::StartRecord || s == CsvState::EndRecord || s == CsvState::EndFieldDelim
}

/// Reading one byte from `acc` is `feed`.
proof fn lemma_scan_one(acc: CsvScan, x: u8)
    ensures
        scan_from(acc, seq![x]) == feed(acc, x),
{
    assert(seq![x].drop_last() =~= Seq::<u8>::empty());
    assert(scan_from(acc, seq![x].drop_last()) == acc);
    assert(seq![x].last() == x);
}

/// Reading `w` and then `x`.
proof fn lemma_scan_push(acc: CsvScan, w: Seq<u8>, x: u8)
    ensures
        scan_from(acc, w.push(x)) == feed(scan_from(acc, w), x),
{
    assert(w.push(x).drop_last() =~= w);
}

/// Bytes with no special byte, read inside an unquoted field, are content.
proof fn lemma_scan_raw(acc: CsvScan, w: Seq<u8>)
    requires
        acc.state == CsvState::InField,
        forall|i: int| 0 <= i < w.len() ==> !is_special_byte(#[trigger] w[i]),
    ensures
        scan_from(acc, w) == (CsvScan { cur: acc.cur + w, ..acc }),
    decreases w.len(),
{
    if w.len() == 0 {
        assert(acc.cur + w =~= acc.cur);
    } else {
        let w1 = w.drop_last();
        assert forall|i: int| 0 <= i < w1.len() implies !is_special_byte(#[trigger] w1[i]) by {
            assert(w1[i] == w[i]);
        }
        lemma_scan_raw(acc, w1);
        assert(!is_special_byte(w[w.len() - 1]));
        assert((acc.cur + w1).push(w.last()) =~= acc.cur + w);
    }
}

/// A field with its quotes doubled, read inside a quoted field, is the
/// field's content.
proof fn lemma_scan_doubled(acc: CsvScan, f: Seq<u8>)
    requires
        acc.state == CsvState::InQuotedField,
    ensures
        scan_from(acc, double_quotes(f)) == (CsvScan { cur: acc.cur + f, ..acc }),
    decreases f.len(),
{
    if f.len() == 0 {
        assert(double_quotes(f) =~= Seq::<u8>::empty());
        assert(acc.cur + f =~= acc.cur);
    } else {
        let f1 = f.drop_last();
        let x = f.last();
        lemma_scan_doubled(acc, f1);
        let mid = CsvScan { cur: acc.cur + f1, ..acc };
        let tail = if x == QUOTE {
            seq![QUOTE, QUOTE]
        } else {
            seq![x]
        };
        crate::grammar::lemma_scan_append(acc, double_quotes(f1), tail);
        if x == QUOTE {
            assert(tail =~= seq![QUOTE].push(QUOTE));
            lemma_scan_push(mid, seq![QUOTE], QUOTE);
            lemma_scan_one(mid, QUOTE);
        } else {
            lemma_scan_one(mid, x);
        }
        assert((acc.cur + f1).push(x) =~= acc.cur + f);
    }
}

/// Reading the text of a field from the start of a field: its content is
/// added, and it leaves the reader unquoted inside the field, just after a
/// closing quote, or (an empty field) where it was.
proof fn lemma_scan_field(acc: CsvScan, f: Seq<u8>)
    requires
        at_field_start(acc.state),
    ensures
        scan_from(acc, encode_field(f)).cur == acc.cur + f,
        scan_from(acc, encode_field(f)).ends == acc.ends,
        scan_from(acc, encode_field(f)).rows == acc.rows,
        needs_quotes(f) ==> scan_from(acc, encode_field(f)).state == CsvState::InDoubleEscapedQuote,
        !needs_quotes(f) && f.len() > 0 ==> scan_from(acc, encode_field(f)).state
            == CsvState::InField,
        f.len() == 0 ==> scan_from(acc, encode_field(f)).state == acc.state,
{
    if needs_quotes(f) {
        let enc = seq![QUOTE] + double_quotes(f) + seq![QUOTE];
        lemma_scan_one(acc, QUOTE);
        let a1 = feed(acc, QUOTE);
        assert(a1 == CsvScan { state: CsvState::InQuotedField, ..acc });
        crate::grammar::lemma_scan_append(acc, seq![QUOTE], double_quotes(f));
        lemma_scan_doubled(a1, f);
        assert(enc =~= (seq![QUOTE] + double_quotes(f)).push(QUOTE));
        lemma_scan_push(acc, seq![QUOTE] + double_quotes(f), QUOTE);
    } else if f.len() == 0 {
        assert(encode_field(f) =~= Seq::<u8>::empty());
        assert(acc.cur + f =~= acc.cur);
    } else {
        let x = f[0];
        assert(!is_special_byte(x));
        lemma_scan_one(acc, x);
        let a1 = feed(acc, x);
        assert(a1 == CsvScan { state: CsvState::InField, cur: acc.cur.push(x), ..acc });
        assert(f =~= seq![x] + f.skip(1));
        crate::grammar::lemma_scan_append(acc, seq![x], f.skip(1));
        assert forall|i: int| 0 <= i < f.skip(1).len() implies !is_special_byte(
            #[trigger] f.skip(1)[i],
        ) by {
            assert(f.skip(1)[i] == f[i + 1]);
        }
        lemma_scan_raw(a1, f.skip(1));
        assert(acc.cur.push(x) + f.skip(1) =~= acc.cur + f);
    }
}

/// Reading the text of a field and a separator from the start of a field.
proof fn lemma_field_then(acc: CsvScan, f: Seq<u8>, sep: u8)
    requires
        at_field_start(acc.state),
        sep == DELIMITER || sep == NEWLINE,
        !(f.len() == 0 && sep == NEWLINE && (acc.state == CsvState::StartRecord || acc.state
            == CsvState::EndRecord)),
        acc.cur.len() + f.len() <= usize::MAX,
    ensures
        sep == DELIMITER ==> scan_from(acc, encode_field(f).push(sep)) == (CsvScan {
            state: CsvState::EndFieldDelim,
            cur: acc.cur + f,
            ends: acc.ends.push((acc.cur + f).len() as usize),
            rows: acc.rows,
        }),
        sep == NEWLINE ==> scan_from(acc, encode_field(f).push(sep)) == (CsvScan {
            state: CsvState::EndRecord,
            cur: Seq::empty(),
            ends: Seq::empty(),
            rows: acc.rows.push(
                record_row(acc.cur + f, acc.ends.push((acc.cur + f).len() as usize)),
            ),
        }),
{
    lemma_scan_field(acc, f);
    lemma_scan_push(acc, encode_field(f), sep);
}

/// The fields of a record before index `i`, put together, are a prefix of
/// all of them put together.
proof fn lemma_flatten_prefix(g: Seq<Seq<u8>>, i: int)
    requires
        0 <= i <= g.len(),
    ensures
        flatten(g.take(i)).len() <= flatten(g).len(),
        flatten(g).take(flatten(g.take(i)).len() as int) == flatten(g.take(i)),
    decreases g.len(),
{
    if i == g.len() {
        assert(g.take(i) =~= g);
    } else {
        let g1 = g.drop_last();
        assert(g1.take(i) =~= g.take(i));
        lemma_flatten_prefix(g1, i);
        assert(flatten(g).take(flatten(g.take(i)).len() as int) =~= flatten(g1).take(
            flatten(g.take(i)).len() as int,
        ));
    }
}

/// The ends of the fields within the record's bytes.
proof fn lemma_cum_ends(g: Seq<Seq<u8>>)
    requires
        flatten(g).len() <= usize::MAX,
    ensures
        cum_ends(g).len() == g.len(),
        forall|i: int|
            0 <= i < g.len() ==> #[trigger] cum_ends(g)[i] == flatten(g.take(i + 1)).len(),
    decreases g.len(),
{
    if g.len() > 0 {
        let g1 = g.drop_last();
        lemma_flatten_prefix(g, g.len() - 1);
        assert(g.take(g.len() - 1) =~= g1);
        lemma_cum_ends(g1);
        assert forall|i: int| 0 <= i < g.len() implies #[trigger] cum_ends(g)[i] == flatten(
            g.take(i + 1),
        ).len() by {
            if i < g1.len() {
                assert(g1.take(i + 1) =~= g.take(i + 1));
            } else {
                assert(g.take(i + 1) =~= g);
            }
        }
    }
}

/// Splitting the record's bytes at its field ends gives back its fields.
proof fn lemma_row_of_flatten(g: Seq<Seq<u8>>)
    requires
        flatten(g).len() <= usize::MAX,
    ensures
        record_row(flatten(g), cum_ends(g)) == g,
{
    let all = flatten(g);
    let e = cum_ends(g);
    lemma_cum_ends(g);
    assert forall|i: int| 0 <= i < e.len() implies #[trigger] e[i] <= all.len() by {
        lemma_flatten_prefix(g, i + 1);
    }
    assert forall|i: int, j: int| 0 <= i <= j < e.len() implies e[i] <= e[j] by {
        lemma_flatten_prefix(g.take(j + 1), i + 1);
        assert(g.take(j + 1).take(i + 1) =~= g.take(i + 1));
    }
    assert(ends_well_formed(e, all.len() as int));
    assert forall|i: int| 0 <= i < g.len() implies #[trigger] record_row(all, e)[i] == g[i] by {
        law_well_formed_ends_give_exact_fields(all, e, all.len() as int, i);
        lemma_flatten_prefix(g, i + 1);
        lemma_flatten_prefix(g, i);
        let a = flatten(g.take(i)).len() as int;
        let b = flatten(g.take(i + 1)).len() as int;
        assert(g.take(i + 1).drop_last() =~= g.take(i));
        assert(flatten(g.take(i + 1)) == flatten(g.take(i)) + g[i]);
        if i > 0 {
            assert(e[i - 1] == a);
        }
        assert(all.subrange(a, b) =~= flatten(g.take(i + 1)).subrange(a, b));
        assert(flatten(g.take(i + 1)).subrange(a, b) =~= g[i]);
    }
    assert(record_row(all, e) =~= g);
}

/// Reading the joined fields of a record and then a separator, from the
/// start of a record.
proof fn lemma_scan_fields(acc: CsvScan, g: Seq<Seq<u8>>, sep: u8)
    requires
        acc.state == CsvState::StartRecord || acc.state == CsvState::EndRecord,
        acc.cur == Seq::<u8>::empty(),
        acc.ends == Seq::<usize>::empty(),
        g.len() >= 1,
        sep == DELIMITER || sep == NEWLINE,
        !(g.len() == 1 && g[0].len() == 0 && sep == NEWLINE),
        flatten(g).len() <= usize::MAX,
    ensures
        sep == DELIMITER ==> scan_from(acc, join_fields(g).push(sep)) == (CsvScan {
            state: CsvState::EndFieldDelim,
            cur: flatten(g),
            ends: cum_ends(g),
            rows: acc.rows,
        }),
        sep == NEWLINE ==> scan_from(acc, join_fields(g).push(sep)) == (CsvScan {
            state: CsvState::EndRecord,
            cur: Seq::empty(),
            ends: Seq::empty(),
            rows: acc.rows.push(record_row(flatten(g), cum_ends(g))),
        }),
    decreases g.len(),
{
    let last = g.last();
    let g1 = g.drop_last();
    if g.len() == 1 {
        assert(g1 =~= Seq::<Seq<u8>>::empty());
        assert(flatten(g) =~= last);
        assert(acc.cur + last =~= last);
        assert(cum_ends(g) =~= Seq::<usize>::empty().push(last.len() as usize));
        lemma_field_then(acc, last, sep);
    } else {
        assert(flatten(g1).len() <= flatten(g).len());
        lemma_scan_fields(acc, g1, DELIMITER);
        let mid = CsvScan {
            state: CsvState::EndFieldDelim,
            cur: flatten(g1),
            ends: cum_ends(g1),
            rows: acc.rows,
        };
        assert(join_fields(g).push(sep) =~= join_fields(g1).push(DELIMITER) + encode_field(
            last,
        ).push(sep));
        crate::grammar::lemma_scan_append(
            acc,
            join_fields(g1).push(DELIMITER),
            encode_field(last).push(sep),
        );
        lemma_field_then(mid, last, sep);
    }
}

/// Reading the text of a record (of at least one field) from the start of a
/// record gives that record.
proof fn lemma_scan_record(acc: CsvScan, g: Seq<Seq<u8>>)
    requires
        acc.state == CsvState::StartRecord || acc.state == CsvState::EndRecord,
        acc.cur == Seq::<u8>::empty(),
        acc.ends == Seq::<usize>::empty(),
        g.len() >= 1,
        flatten(g).len() <= usize::MAX,
    ensures
        scan_from(acc, encode_record(g)) == (CsvScan {
            state: CsvState::EndRecord,
            cur: Seq::empty(),
            ends: Seq::empty(),
            rows: acc.rows.push(g),
        }),
{
    lemma_row_of_flatten(g);
    if g.len() == 1 && g[0].len() == 0 {
        assert(join_fields(g) == encode_field(g[0]));
        assert(encode_field(g[0]) =~= Seq::<u8>::empty());
        assert(encode_record(g) =~= seq![QUOTE].push(QUOTE).push(NEWLINE));
        lemma_scan_push(acc, seq![QUOTE].push(QUOTE), NEWLINE);
        lemma_scan_push(acc, seq![QUOTE], QUOTE);
        lemma_scan_one(acc, QUOTE);
        assert(g.drop_last() =~= Seq::<Seq<u8>>::empty());
        assert(flatten(g) =~= Seq::<u8>::empty());
        assert(cum_ends(g) =~= seq![0usize]);
    } else {
        lemma_scan_fields(acc, g, NEWLINE);
        assert(join_fields(g).len() > 0) by {
            if g.len() == 1 {
                if needs_quotes(g[0]) {
                } else {
                    assert(encode_field(g[0]) == g[0]);
                }
            } else {
                assert(join_fields(g).len() >= 1);
            }
        }
        assert(encode_record(g) =~= join_fields(g).push(NEWLINE));
    }
}

/// The size of every record stays within `usize`.
pub open spec fn records_fit(t: Seq<Seq<Seq<u8>>>) -> bool {
    forall|i: int| 0 <= i < t.len() ==> flatten(#[trigger] t[i]).len() <= usize::MAX
}

/// Reading the text of records from the start gives the records.
proof fn lemma_scan_records(t: Seq<Seq<Seq<u8>>>)
    requires
        forall|i: int| 0 <= i < t.len() ==> (#[trigger] t[i]).len() >= 1,
        records_fit(t),
    ensures
        scan_from(scan_start(), encode_records(t)).rows == t,
        scan_from(scan_start(), encode_records(t)).cur == Seq::<u8>::empty(),
        scan_from(scan_start(), encode_records(t)).ends == Seq::<usize>::empty(),
        t.len() == 0 ==> scan_from(scan_start(), encode_records(t)).state == CsvState::StartRecord,
        t.len() > 0 ==> scan_from(scan_start(), encode_records(t)).state == CsvState::EndRecord,
    decreases t.len(),
{
    if t.len() > 0 {
        let t1 = t.drop_last();
        assert forall|i: int| 0 <= i < t1.len() implies (#[trigger] t1[i]).len() >= 1 by {
            assert(t1[i] == t[i]);
        }
        assert forall|i: int| 0 <= i < t1.len() implies flatten(#[trigger] t1[i]).len()
            <= usize::MAX by {
            assert(t1[i] == t[i]);
        }
        lemma_scan_records(t1);
        crate::grammar::lemma_scan_append(scan_start(), encode_records(t1), encode_record(t.last()));
        assert(t.last() == t[t.len() - 1]);
        lemma_scan_record(scan_from(scan_start(), encode_records(t1)), t.last());
        assert(t1.push(t.last()) =~= t);
    } else {
        assert(encode_records(t) =~= Seq::<u8>::empty());
    }
}

/// Parsing the CSV text of records gives the records back, when every
/// record has at least one field, every record's size fits in `usize`, and
/// the text does not begin with a byte order mark (which a reader skips).
pub proof fn law_parse_reads_back_written_records(t: Seq<Seq<Seq<u8>>>)
    requires
        forall|i: int| 0 <= i < t.len() ==> (#[trigger] t[i]).len() >= 1,
        records_fit(t),
        !starts_with_bom(encode_records(t)),
    ensures
        csv_records(encode_records(t)) == t,
{
    lemma_scan_records(t);
    assert(encode_records(t).skip(0) =~= encode_records(t));
}

} // verus!
