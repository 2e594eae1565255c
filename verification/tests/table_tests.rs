use rumpy::table::{text_table, TableError};

fn lines(text: &str) -> Vec<Vec<u8>> {
    text.lines().map(|l| l.as_bytes().to_vec()).collect()
}

fn cells(t: &[Vec<u8>]) -> Vec<String> {
    t.iter().map(|c| String::from_utf8(c.clone()).unwrap()).collect()
}

#[test]
fn whitespace_table() {
    let t = text_table(&lines("# header\n1 2  3\n\n 4\t5 6 \n"), None, b"#", 0).ok().unwrap();
    assert_eq!(t.shape, vec![2, 3]);
    assert_eq!(cells(&t.cells), vec!["1", "2", "3", "4", "5", "6"]);
}

#[test]
fn delimited_table_trims_and_drops_empty_cells() {
    let t = text_table(&lines("a, b,,c\nd ,e,f\n"), Some(b","), b"#", 0).ok().unwrap();
    assert_eq!(t.shape, vec![2, 3]);
    assert_eq!(cells(&t.cells), vec!["a", "b", "c", "d", "e", "f"]);
}

#[test]
fn multi_byte_delimiter() {
    let t = text_table(&lines("1::2::3\n"), Some(b"::"), b"#", 0).ok().unwrap();
    assert_eq!(t.shape, vec![1, 3]);
    assert_eq!(cells(&t.cells), vec!["1", "2", "3"]);
}

#[test]
fn one_column_gives_one_dimension() {
    let t = text_table(&lines("7\n8\n9\n"), None, b"#", 0).ok().unwrap();
    assert_eq!(t.shape, vec![3]);
    assert_eq!(cells(&t.cells), vec!["7", "8", "9"]);
}

#[test]
fn skipped_rows_and_empty_tables() {
    let t = text_table(&lines("x y\n1 2\n"), None, b"#", 1).ok().unwrap();
    assert_eq!(t.shape, vec![1, 2]);
    let e = text_table(&lines("# only\n\n"), None, b"#", 0).ok().unwrap();
    assert_eq!(e.shape, vec![0]);
    assert!(e.cells.is_empty());
    let past = text_table(&lines("1\n"), None, b"#", 5).ok().unwrap();
    assert_eq!(past.shape, vec![0]);
}

#[test]
fn empty_delimiter_splits_characters() {
    let t = text_table(&lines("12 3\n"), Some(b""), b"#", 0).ok().unwrap();
    assert_eq!(t.shape, vec![1, 3]);
    assert_eq!(cells(&t.cells), vec!["1", "2", "3"]);
}

#[test]
fn ragged_rows_are_refused() {
    assert_eq!(text_table(&lines("1 2\n3\n"), None, b"#", 0).err(), Some(TableError::RaggedRows));
}
