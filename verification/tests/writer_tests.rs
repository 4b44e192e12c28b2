use rscsv::capacity::write_buffer_capacity;
use rscsv::value::{TypeError, Value, WriteError};
use rscsv::writer::{generate_line, generate_lines};

fn s(text: &str) -> Value {
    Value::Str(text.as_bytes().to_vec())
}

fn row(cells: &[&str]) -> Value {
    Value::Array(cells.iter().map(|c| s(c)).collect())
}

fn cells(items: &[&str]) -> Vec<Value> {
    items.iter().map(|c| s(c)).collect()
}

fn text(r: Result<Vec<u8>, WriteError>) -> String {
    match r {
        Ok(bytes) => String::from_utf8(bytes).unwrap(),
        Err(WriteError::Type(k)) => panic!("type error: {}", k.message()),
        Err(WriteError::Csv(e)) => panic!("csv error: {}", e),
    }
}

#[test]
fn generate_line_of_plain_cells() {
    assert_eq!(text(generate_line(&cells(&["1", "2", "3"]))), "1,2,3\n");
}

#[test]
fn generate_lines_of_two_rows() {
    let rows = vec![row(&["1", "2", "3"]), row(&["3", "4", "5"])];
    assert_eq!(text(generate_lines(&rows)), "1,2,3\n3,4,5\n");
}

#[test]
fn generate_lines_of_no_rows_is_empty() {
    assert_eq!(text(generate_lines(&vec![])), "");
}

#[test]
fn fields_with_special_bytes_are_quoted() {
    assert_eq!(text(generate_line(&cells(&["a,b", "c"]))), "\"a,b\",c\n");
    assert_eq!(text(generate_line(&cells(&["say \"hi\""]))), "\"say \"\"hi\"\"\"\n");
    assert_eq!(text(generate_line(&cells(&["two\nlines", "x"]))), "\"two\nlines\",x\n");
    assert_eq!(text(generate_line(&cells(&["cr\r", "x"]))), "\"cr\r\",x\n");
    assert_eq!(text(generate_line(&cells(&["\""]))), "\"\"\"\"\n");
}

#[test]
fn other_bytes_are_not_quoted() {
    assert_eq!(text(generate_line(&cells(&["a b", "tab\there", "semi;colon", "back\\slash", "#"]))),
        "a b,tab\there,semi;colon,back\\slash,#\n");
}

#[test]
fn empty_records_are_written_as_a_quoted_empty_field() {
    assert_eq!(text(generate_line(&vec![])), "\"\"\n");
    assert_eq!(text(generate_line(&cells(&[""]))), "\"\"\n");
    assert_eq!(text(generate_line(&cells(&["", ""]))), ",\n");
    assert_eq!(text(generate_line(&cells(&["", "a"]))), ",a\n");
}

#[test]
fn non_utf8_bytes_pass_through() {
    let row = vec![Value::Str(vec![0xff, 0xfe]), Value::Str(vec![0xc3, 0xa9])];
    assert_eq!(generate_line(&row).ok().unwrap(), vec![0xff, 0xfe, b',', 0xc3, 0xa9, b'\n']);
}

#[test]
fn generate_line_rejects_non_string_cell() {
    let row = vec![s("a"), Value::Other, s("b")];
    match generate_line(&row) {
        Err(WriteError::Type(TypeError::CellNotString)) => {}
        _ => panic!("expected a type error"),
    }
    let nested = vec![Value::Array(vec![])];
    assert!(matches!(generate_line(&nested), Err(WriteError::Type(TypeError::CellNotString))));
}

#[test]
fn generate_lines_rejects_row_that_is_not_an_array() {
    let rows = vec![row(&["a"]), s("b")];
    assert!(matches!(generate_lines(&rows), Err(WriteError::Type(TypeError::RowNotArray))));
}

#[test]
fn generate_lines_rejects_non_string_cell() {
    let rows = vec![row(&["a"]), Value::Array(vec![Value::Other])];
    assert!(matches!(generate_lines(&rows), Err(WriteError::Type(TypeError::CellNotString))));
}

#[test]
fn generate_lines_rejects_unequal_lengths() {
    let rows = vec![row(&["a", "b"]), row(&["c"])];
    match generate_lines(&rows) {
        Err(WriteError::Csv(e)) => {
            let message = e.to_string();
            assert!(message.contains("found record with 1 fields, but the previous record has 2 fields"), "{}", message);
        }
        _ => panic!("expected a csv error"),
    }
}

#[test]
fn the_first_failing_row_decides_the_error() {
    // The length mismatch comes first, so it wins over the later type error.
    let rows = vec![row(&["a", "b"]), row(&["c"]), Value::Other];
    assert!(matches!(generate_lines(&rows), Err(WriteError::Csv(_))));
    // The type error comes first here.
    let rows = vec![row(&["a", "b"]), Value::Other, row(&["c"])];
    assert!(matches!(generate_lines(&rows), Err(WriteError::Type(TypeError::RowNotArray))));
}

#[test]
fn empty_rows_count_as_rows_of_no_fields() {
    let rows = vec![Value::Array(vec![]), Value::Array(vec![])];
    assert_eq!(text(generate_lines(&rows)), "\"\"\n\"\"\n");
    let rows = vec![Value::Array(vec![]), row(&[""])];
    assert!(matches!(generate_lines(&rows), Err(WriteError::Csv(_))));
}

#[test]
fn writing_rows_splits_into_writing_their_parts() {
    let a = vec![row(&["x", "y"]), row(&["1", "2"])];
    let b = vec![row(&["p,q", "r"]), row(&["", ""])];
    let mut ab = a.iter().map(clone_value).collect::<Vec<_>>();
    ab.extend(b.iter().map(clone_value));
    let whole = text(generate_lines(&ab));
    assert_eq!(whole, text(generate_lines(&a)) + &text(generate_lines(&b)));
    assert_eq!(whole, "x,y\n1,2\n\"p,q\",r\n,\n");
}

#[test]
fn one_row_written_as_lines_is_one_line() {
    let c = cells(&["a", "b\"c"]);
    let lines = generate_lines(&vec![Value::Array(cells(&["a", "b\"c"]))]);
    assert_eq!(text(lines), text(generate_line(&c)));
}

#[test]
fn many_rows_go_through_the_buffer() {
    let long = "x".repeat(5000);
    let rows: Vec<Value> = (0..300).map(|i| row(&[&i.to_string(), &long])).collect();
    let out = text(generate_lines(&rows));
    let expected: String = (0..300).map(|i| format!("{},{}\n", i, long)).collect();
    assert_eq!(out, expected);
}

#[test]
fn write_buffer_capacity_values() {
    assert_eq!(write_buffer_capacity(0), 4096);
    assert_eq!(write_buffer_capacity(16), 4096);
    assert_eq!(write_buffer_capacity(17), 4352);
    assert_eq!(write_buffer_capacity(1000), 256000);
    assert_eq!(write_buffer_capacity(usize::MAX), usize::MAX);
    assert_eq!(write_buffer_capacity(usize::MAX / 256 + 1), usize::MAX);
}

#[test]
fn type_error_messages() {
    assert_eq!(TypeError::RowNotArray.message(), "expected Array of Arrays");
    assert_eq!(TypeError::CellNotString.message(), "expected String values inside row");
}

fn clone_value(v: &Value) -> Value {
    match v {
        Value::Str(b) => Value::Str(b.clone()),
        Value::Array(c) => Value::Array(c.iter().map(clone_value).collect()),
        Value::Other => Value::Other,
    }
}

#[test]
fn lines_are_the_single_lines_joined() {
    let rows = vec![row(&["a", "b,c"]), row(&["\"", ""]), row(&["x", "y"])];
    let joined: String = rows
        .iter()
        .map(|r| match r {
            Value::Array(c) => text(generate_line(c)),
            _ => unreachable!(),
        })
        .collect();
    assert_eq!(text(generate_lines(&rows)), joined);
}
