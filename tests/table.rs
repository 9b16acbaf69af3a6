use csvr::{CSVError, CSVFile, LoadError, WriteError};

fn load(content: &str) -> CSVFile {
    CSVFile::new(&"people.csv".to_owned(), &content.to_owned()).unwrap()
}

fn lines(v: &[&str]) -> Vec<String> {
    v.iter().map(|s| s.to_string()).collect()
}

const PEOPLE: &str = "name,age\nalice,30\nbob,4";

#[test]
fn load_splits_header_and_rows() {
    let t = load(PEOPLE);
    assert_eq!(t.header, "name,age");
    assert_eq!(t.file_data, lines(&["alice,30", "bob,4"]));
    assert_eq!(t.num_rows, 2);
    assert_eq!(t.num_cols, 2);
    assert_eq!(t.max_col_lengths, vec![5, 3]);
    assert_eq!(t.file_path, "people.csv");
}

#[test]
fn load_drops_the_empty_piece_after_a_final_newline() {
    let t = load("name,age\nalice,30\n");
    assert_eq!(t.file_data, lines(&["alice,30"]));
    assert_eq!(t.num_rows, 1);
}

#[test]
fn load_refuses_bad_input() {
    let path = "people.csv".to_owned();
    assert_eq!(CSVFile::new(&"people.txt".to_owned(), &PEOPLE.to_owned()), Err(LoadError::NotCsvFile));
    assert_eq!(CSVFile::new(&"people".to_owned(), &PEOPLE.to_owned()), Err(LoadError::NotCsvFile));
    assert_eq!(CSVFile::new(&path, &"".to_owned()), Err(LoadError::EmptyFile));
    assert_eq!(CSVFile::new(&path, &"\na,b".to_owned()), Err(LoadError::EmptyFile));
    assert_eq!(CSVFile::new(&path, &"a,b\n1,2,3".to_owned()), Err(LoadError::RaggedRow));
}

#[test]
fn has_csv_extension_looks_after_the_last_dot() {
    assert!(csvr::table::has_csv_extension("data.csv"));
    assert!(csvr::table::has_csv_extension("dir.v2/data.csv"));
    assert!(!csvr::table::has_csv_extension("data.csv.bak"));
    assert!(!csvr::table::has_csv_extension("csv"));
}

#[test]
fn round_trip_keeps_content() {
    let t = load(PEOPLE);
    assert_eq!(t.file_content(), Ok(PEOPLE.to_owned()));
    let t2 = load("name,age\nalice,30\nbob,4\n");
    assert_eq!(t2.file_content(), Ok(PEOPLE.to_owned()));
    let t3 = load("h\n\nx");
    assert_eq!(t3.file_content(), Ok("h\n\nx".to_owned()));
}

#[test]
fn file_content_refusals() {
    let mut t = load(PEOPLE);
    t.file_path = "out.txt".to_owned();
    assert_eq!(t.file_content(), Err(WriteError::NotCsvFile));
    let mut one = load("a\n1");
    one.delete_column(1).unwrap();
    assert_eq!(one.num_cols, 0);
    assert_eq!(one.file_content(), Err(WriteError::NoColumns));
}

#[test]
fn display_file_draws_whole_table() {
    let t = load(PEOPLE);
    let expected = lines(&[
        "+-------+-----+",
        "| name  | age |",
        "+-------+-----+",
        "| alice | 30  |  (1)",
        "+-------+-----+",
        "| bob   | 4   |  (2)",
        "+-------+-----+",
    ]);
    assert_eq!(t.display_file(None, None), Ok(expected));
}

#[test]
fn display_range_labels_restart_at_one() {
    let t = load(PEOPLE);
    let out = t.display_file(Some(2), Some(2)).unwrap();
    assert_eq!(out.len(), 5);
    assert_eq!(out[3], "| bob   | 4   |  (1)");
    assert_eq!(t.display_file(Some(0), Some(1)), Err(CSVError::InvalidRowIndex));
    assert_eq!(t.display_file(Some(1), Some(3)), Err(CSVError::InvalidRowIndex));
}

#[test]
fn display_row_shows_one_row_labelled_one() {
    let t = load(PEOPLE);
    for r in 1..=t.num_rows {
        let out = t.display_row(r).unwrap();
        assert_eq!(out.len(), 5);
        assert!(out[3].ends_with("  (1)"));
    }
    assert_eq!(t.display_row(3), Err(CSVError::InvalidRowIndex));
}

#[test]
fn inverted_range_is_refused_even_out_of_range() {
    let t = load(PEOPLE);
    assert_eq!(t.display_file(Some(2), Some(1)), Err(CSVError::IncorrectIndices));
    assert_eq!(t.display_file(Some(9), Some(5)), Err(CSVError::IncorrectIndices));
}

#[test]
fn labels_beyond_nine_have_two_digits() {
    let mut content = String::from("n");
    for i in 0..11 {
        content.push_str(&format!("\n{}", i));
    }
    let t = load(&content);
    let out = t.display_file(None, None).unwrap();
    assert_eq!(out[3 + 2 * 10], "| 10 |  (11)");
}

#[test]
fn display_column_draws_one_column() {
    let t = load(PEOPLE);
    let expected = lines(&[
        "+-----+",
        "| age |",
        "+-----+",
        "| 30  |  (1)",
        "+-----+",
        "| 4   |  (2)",
        "+-----+",
    ]);
    assert_eq!(t.display_column(2), Ok(expected));
    assert_eq!(t.display_column(3), Err(CSVError::InvalidColIndex));
    assert_eq!(t.display_column(0), Err(CSVError::InvalidColIndex));
}

#[test]
fn delete_row_shifts_later_rows() {
    let mut t = load("k\na\nb\nc");
    assert_eq!(t.delete_row(2), Ok(()));
    assert_eq!(t.num_rows, 2);
    assert_eq!(t.file_data, lines(&["a", "c"]));
    let out = t.display_file(None, None).unwrap();
    assert_eq!(out[3], "| a |  (1)");
    assert_eq!(out[5], "| c |  (2)");
    assert_eq!(t.delete_row(3), Err(CSVError::InvalidRowIndex));
}

#[test]
fn delete_column_removes_field_everywhere() {
    let mut t = load("a,b,c\n1,2,3\n4,5,6");
    assert_eq!(t.delete_column(2), Ok(()));
    assert_eq!(t.header, "a,c");
    assert_eq!(t.file_data, lines(&["1,3", "4,6"]));
    assert_eq!(t.num_cols, 2);
    assert_eq!(t.max_col_lengths, vec![1, 1]);
}

#[test]
fn delete_entry_twice_is_refused() {
    let mut t = load(PEOPLE);
    assert_eq!(t.delete_entry(1, 2), Ok(()));
    assert_eq!(t.file_data[0], "alice,_");
    assert_eq!(t.delete_entry(1, 2), Err(CSVError::InvalidEntry));
    assert_eq!(t.file_data[0], "alice,_");
}

#[test]
fn update_entry_replaces_one_cell_and_refreshes_widths() {
    let mut t = load(PEOPLE);
    assert_eq!(t.update_entry(2, 1, "roberta".to_owned()), Ok(()));
    assert_eq!(t.file_data[1], "roberta,4");
    assert_eq!(t.max_col_lengths, vec![7, 3]);
    assert_eq!(t.update_entry(2, 1, "x,y".to_owned()), Err(CSVError::MoreEntriesThanRequired));
    assert_eq!(t.update_entry(2, 3, "x".to_owned()), Err(CSVError::InvalidColIndex));
}

#[test]
fn modify_row_replaces_the_row() {
    let mut t = load(PEOPLE);
    assert_eq!(t.modify_row(1, "carol,77".to_owned()), Ok(()));
    assert_eq!(t.file_data, lines(&["carol,77", "bob,4"]));
    assert_eq!(t.modify_row(1, "x".to_owned()), Err(CSVError::LessEntriesThanRequired));
    assert_eq!(t.modify_row(1, "x,y,z".to_owned()), Err(CSVError::MoreEntriesThanRequired));
}

#[test]
fn modify_column_sets_one_value_per_row() {
    let mut t = load(PEOPLE);
    assert_eq!(t.modify_column(2, "31,5".to_owned()), Ok(()));
    assert_eq!(t.file_data, lines(&["alice,31", "bob,5"]));
    assert_eq!(t.header, "name,age");
    assert_eq!(t.modify_column(2, "1".to_owned()), Err(CSVError::LessEntriesThanRequired));
}

#[test]
fn add_column_takes_header_then_rows() {
    let mut t = load(PEOPLE);
    assert_eq!(t.add_column("city,paris,rome".to_owned()), Ok(()));
    assert_eq!(t.header, "name,age,city");
    assert_eq!(t.file_data, lines(&["alice,30,paris", "bob,4,rome"]));
    assert_eq!(t.num_cols, 3);
    assert_eq!(t.max_col_lengths, vec![5, 3, 5]);
}

#[test]
fn add_row_then_display_last_row() {
    let mut t = load("x,y,z\n1,2,3");
    assert_eq!(t.add_row("a,b,c".to_owned()), Ok(()));
    assert_eq!(t.num_rows, 2);
    let out = t.display_row(t.num_rows).unwrap();
    assert_eq!(out[3], "| a | b | c |  (1)");
    let mut two = load("x,y\n1,2");
    assert_eq!(two.add_row("a,b,c".to_owned()), Err(CSVError::MoreEntriesThanRequired));
    assert_eq!(two.num_rows, 1);
}

#[test]
fn merge_appends_rows_of_same_shape() {
    let mut a = load(PEOPLE);
    let b = load("n,a\ncarol,7");
    assert_eq!(a.merge_files(&b), Ok(()));
    assert_eq!(a.num_rows, 3);
    assert_eq!(a.header, "name,age");
    assert_eq!(a.file_data, lines(&["alice,30", "bob,4", "carol,7"]));
}

#[test]
fn merge_of_different_shapes_changes_nothing() {
    let mut a = load("a,b,c\n1,2,3");
    let b = load("a,b,c,d\n1,2,3,4\n5,6,7,8");
    let a_before = a.clone();
    assert_eq!(a.merge_files(&b), Err(CSVError::InvalidDimensions));
    assert_eq!(a.num_rows, 1);
    assert_eq!(b.num_rows, 2);
    assert!(a == a_before);
}

#[test]
fn sorted_display_orders_rows_and_keeps_table() {
    let t = load("k\npear\napple\nfig");
    let before = t.display_file(None, None).unwrap();
    let out = t.sorted_display().unwrap();
    assert_eq!(out[3], "| apple |  (1)");
    assert_eq!(out[5], "| fig   |  (2)");
    assert_eq!(out[7], "| pear  |  (3)");
    assert_eq!(t.display_file(None, None).unwrap(), before);
    assert_eq!(t.file_data, lines(&["pear", "apple", "fig"]));
}

#[test]
fn sorted_display_of_empty_table_is_refused() {
    let t = load("k");
    assert_eq!(t.sorted_display(), Err(CSVError::InvalidRowIndex));
}

#[test]
fn error_messages() {
    assert_eq!(CSVError::IncorrectIndices.message(), "Start index greater than end index");
    assert_eq!(CSVError::InvalidEntry.message(), "No item exists at supplied position");
    assert_eq!(
        CSVError::InvalidDimensions.message(),
        "Dimensions of specified files do not match. Cannot merge"
    );
}

#[test]
fn check_functions_change_nothing() {
    let t = load(PEOPLE);
    let copy = t.clone();
    assert_eq!(t.check_delete_row(1), Ok(()));
    assert_eq!(t.check_delete_entry(1, 1), Ok(()));
    assert_eq!(t.check_add_column(&"c,1".to_owned()), Err(CSVError::LessEntriesThanRequired));
    assert_eq!(t.check_add_column(&"c,1,2,3".to_owned()), Err(CSVError::MoreEntriesThanRequired));
    assert!(t == copy);
}
