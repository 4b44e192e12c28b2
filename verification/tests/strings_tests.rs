use rscsv::strings::{generate_string_line, generate_string_lines};

fn strs(items: &[&str]) -> Vec<String> {
    items.iter().map(|s| s.to_string()).collect()
}

#[test]
fn string_line_of_plain_cells() {
    assert_eq!(generate_string_line(&strs(&["1", "2", "3"])), "1,2,3\n");
}

#[test]
fn string_lines_of_two_rows() {
    let rows = vec![strs(&["1", "2", "3"]), strs(&["3", "4", "5"])];
    assert_eq!(generate_string_lines(&rows).unwrap(), "1,2,3\n3,4,5\n");
}

#[test]
fn string_lines_keep_unicode() {
    let rows = vec![strs(&["héllo", "wörld, \"q\""]), strs(&["日本", ""])];
    assert_eq!(generate_string_lines(&rows).unwrap(), "héllo,\"wörld, \"\"q\"\"\"\n日本,\n");
}

#[test]
fn string_line_of_an_empty_row() {
    assert_eq!(generate_string_line(&vec![]), "\"\"\n");
    assert_eq!(generate_string_line(&strs(&[""])), "\"\"\n");
}

#[test]
fn string_lines_reject_unequal_lengths() {
    let rows = vec![strs(&["a", "b"]), strs(&["c", "d", "e"])];
    let err = generate_string_lines(&rows).unwrap_err();
    assert!(err.to_string().contains("found record with 3 fields, but the previous record has 2 fields"));
}

#[test]
fn string_lines_of_no_rows() {
    assert_eq!(generate_string_lines(&vec![]).unwrap(), "");
}
