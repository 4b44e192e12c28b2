use rscsv::reader::{build_row_from_buffers, estimated_rows, grown_len, parse_csv};
use rscsv::value::Value;
use rscsv::writer::generate_lines;

fn parse(text: &[u8]) -> Vec<Vec<String>> {
    parse_csv(text)
        .into_iter()
        .map(|row| row.into_iter().map(|f| String::from_utf8(f).unwrap()).collect())
        .collect()
}

fn rows(items: &[&[&str]]) -> Vec<Vec<String>> {
    items.iter().map(|r| r.iter().map(|c| c.to_string()).collect()).collect()
}

#[test]
fn parse_simple_rows() {
    assert_eq!(parse(b"a,b,c\n1,2,3\n"), rows(&[&["a", "b", "c"], &["1", "2", "3"]]));
}

#[test]
fn parse_without_trailing_newline() {
    assert_eq!(parse(b"a,b\n1,2"), rows(&[&["a", "b"], &["1", "2"]]));
}

#[test]
fn parse_empty_input() {
    assert_eq!(parse(b""), Vec::<Vec<String>>::new());
    assert_eq!(parse(b"\n\n"), Vec::<Vec<String>>::new());
}

#[test]
fn parse_quoted_fields() {
    assert_eq!(
        parse(b"\"a,b\",\"say \"\"hi\"\"\",\"two\nlines\"\n"),
        rows(&[&["a,b", "say \"hi\"", "two\nlines"]])
    );
}

#[test]
fn parse_crlf_and_cr_terminators() {
    assert_eq!(parse(b"a,b\r\nc,d\r\n"), rows(&[&["a", "b"], &["c", "d"]]));
    assert_eq!(parse(b"a\rb\r"), rows(&[&["a"], &["b"]]));
}

#[test]
fn parse_empty_fields() {
    assert_eq!(parse(b",\n\"\"\n"), rows(&[&["", ""], &[""]]));
}

#[test]
fn parse_rows_of_different_lengths() {
    assert_eq!(parse(b"a\nb,c\n"), rows(&[&["a"], &["b", "c"]]));
}

#[test]
fn parse_strips_a_leading_byte_order_mark() {
    assert_eq!(parse(b"\xef\xbb\xbfa,b\n"), rows(&[&["a", "b"]]));
}

#[test]
fn parse_keeps_non_utf8_bytes() {
    assert_eq!(parse_csv(b"\xff,\xfe\n"), vec![vec![vec![0xff], vec![0xfe]]]);
}

#[test]
fn parse_grows_the_field_buffer() {
    let long = "y".repeat(10_000);
    let data = format!("{},z\nq\n", long);
    assert_eq!(parse(data.as_bytes()), rows(&[&[long.as_str(), "z"], &["q"]]));
}

#[test]
fn parse_grows_the_ends_buffer() {
    let cells: Vec<String> = (0..200).map(|i| i.to_string()).collect();
    let data = format!("{}\n{}", cells.join(","), cells.join(","));
    assert_eq!(parse(data.as_bytes()), vec![cells.clone(), cells]);
}

#[test]
fn parse_many_rows() {
    let data: String = (0..1000).map(|i| format!("{},{}\n", i, i * 2)).collect();
    let parsed = parse(data.as_bytes());
    assert_eq!(parsed.len(), 1000);
    assert_eq!(parsed[999], vec!["999".to_string(), "1998".to_string()]);
}

#[test]
fn parse_reads_back_what_is_written() {
    let table = rows(&[&["plain", "a,b", "q\"uote"], &["", "line\nbreak", "cr\r"], &["x", "", ""]]);
    let values: Vec<Value> = table
        .iter()
        .map(|r| Value::Array(r.iter().map(|c| Value::Str(c.as_bytes().to_vec())).collect()))
        .collect();
    let text = generate_lines(&values).ok().unwrap();
    assert_eq!(parse(&text), table);
}

#[test]
fn build_row_splits_at_the_ends() {
    let output = b"abcdefXXXX".to_vec();
    let ends = vec![1, 3, 3, 6, 99];
    let row = build_row_from_buffers(&output, 6, &ends, 4);
    assert_eq!(row, vec![b"a".to_vec(), b"bc".to_vec(), b"".to_vec(), b"def".to_vec()]);
}

#[test]
fn build_row_clamps_ends_outside_the_record() {
    let output = b"abcdef".to_vec();
    let ends = vec![4, 2, 9];
    let row = build_row_from_buffers(&output, 5, &ends, 3);
    assert_eq!(row, vec![b"abcd".to_vec(), b"".to_vec(), b"e".to_vec()]);
}

#[test]
fn build_row_with_no_ends_is_empty() {
    assert_eq!(build_row_from_buffers(&vec![1, 2], 2, &vec![], 0), Vec::<Vec<u8>>::new());
}

#[test]
fn grown_len_values() {
    assert_eq!(grown_len(4096, 4096), 8192);
    assert_eq!(grown_len(64, 10), 128);
    assert_eq!(grown_len(0, 0), 1);
    assert_eq!(grown_len(2, 9), 10);
    assert_eq!(grown_len(usize::MAX / 2 + 1, 3), usize::MAX);
}

#[test]
fn estimated_rows_values() {
    assert_eq!(estimated_rows(0), 8);
    assert_eq!(estimated_rows(2879), 8);
    assert_eq!(estimated_rows(3600), 10);
    assert_eq!(estimated_rows(360_000), 1000);
}

#[test]
fn parse_has_rows_exactly_when_data_has_content() {
    assert_eq!(parse(b"\xef\xbb\xbf"), Vec::<Vec<String>>::new());
    assert_eq!(parse(b"\xef\xbb\xbf\r\n"), Vec::<Vec<String>>::new());
    assert_eq!(parse(b"\r\n\r"), Vec::<Vec<String>>::new());
    assert_eq!(parse(b"\"\""), rows(&[&[""]]));
    assert_eq!(parse(b"\n,\n"), rows(&[&["", ""]]));
    assert_eq!(parse(b"x"), rows(&[&["x"]]));
}

#[test]
fn parse_keeps_the_unterminated_last_record() {
    assert_eq!(parse(b"a,b\nc,d"), rows(&[&["a", "b"], &["c", "d"]]));
}

#[test]
fn parse_keeps_ragged_rows() {
    assert_eq!(parse(b"a,b\nc\n"), rows(&[&["a", "b"], &["c"]]));
}

#[test]
fn parse_closes_an_unclosed_quote_at_the_end() {
    assert_eq!(parse(b"x,\"abc"), rows(&[&["x", "abc"]]));
}

#[test]
fn parse_600_records_in_order() {
    let data: String = (0..600).map(|i| format!("{}\n", i)).collect();
    let parsed = parse(data.as_bytes());
    assert_eq!(parsed.len(), 600);
    for (i, row) in parsed.iter().enumerate() {
        assert_eq!(row, &vec![i.to_string()]);
    }
}

#[test]
fn parse_long_field_and_many_fields() {
    let tail: Vec<String> = (1..100).map(|i| i.to_string()).collect();
    let data = "x".repeat(5000) + "," + &tail.join(",") + "\n";
    let parsed = parse(data.as_bytes());
    assert_eq!(parsed.len(), 1);
    assert_eq!(parsed[0].len(), 100);
    assert_eq!(parsed[0][0], "x".repeat(5000));
    for i in 1..100 {
        assert_eq!(parsed[0][i], i.to_string());
    }
}

#[test]
fn parse_terminators_and_blank_lines() {
    assert_eq!(parse(b"\n\na\r\n\r\nb\rc\n\n"), rows(&[&["a"], &["b"], &["c"]]));
}

#[test]
fn parse_quoting_rules() {
    assert_eq!(
        parse(b"\"a,b\",\"c\"\"d\",\n\"x\ny\",z"),
        rows(&[&["a,b", "c\"d", ""], &["x\ny", "z"]])
    );
}
