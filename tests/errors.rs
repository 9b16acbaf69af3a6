use csvr::{CSVError, CSVFile};

#[test]
fn test_display_file_incorrect_row_index() {
    let default_file: CSVFile = Default::default();
    let result_1 = default_file.display_file(Some(100), None);
    let result_2 = default_file.display_file(None, Some(100));
    assert_eq!(result_1, Err(CSVError::InvalidRowIndex));
    assert_eq!(result_2, Err(CSVError::InvalidRowIndex));
}

#[test]
fn test_display_file_incorrect_indices() {
    let mut default_file: CSVFile = Default::default();
    default_file.file_data.push("1,2,3,4".to_owned());
    default_file.file_data.push("1,2,3,4".to_owned());
    default_file.num_rows = 2;
    let result = default_file.display_file(Some(2), Some(1));
    assert_eq!(result, Err(CSVError::IncorrectIndices));
}

#[test]
fn test_delete_row_invalid_row_index() {
    let mut default_file: CSVFile = Default::default();
    default_file.num_rows = 2;
    let result = default_file.delete_row(20);
    assert_eq!(result, Err(CSVError::InvalidRowIndex));
}

#[test]
fn test_delete_col_invalid_col_index() {
    let mut default_file: CSVFile = Default::default();
    default_file.num_cols = 2;
    let result = default_file.delete_column(20);
    assert_eq!(result, Err(CSVError::InvalidColIndex));
}

#[test]
fn test_delete_entry_invalid_row_index() {
    let mut default_file: CSVFile = Default::default();
    default_file.num_rows = 2;
    let result = default_file.delete_entry(20, 0);
    assert_eq!(result, Err(CSVError::InvalidRowIndex));
}

#[test]
fn test_delete_entry_invalid_col_index() {
    let mut default_file: CSVFile = Default::default();
    default_file.num_cols = 2;
    default_file.num_rows = 1;
    let result = default_file.delete_entry(1, 20);
    assert_eq!(result, Err(CSVError::InvalidColIndex));
}

#[test]
fn test_delete_entry_invalid_entry() {
    let mut default_file: CSVFile = Default::default();
    default_file.num_cols = 1;
    default_file.num_rows = 1;
    default_file.file_data.push("_".to_owned());
    let result = default_file.delete_entry(1, 1);
    assert_eq!(result, Err(CSVError::InvalidEntry));
}

#[test]
fn test_modify_row_invalid_row_index() {
    let mut default_file: CSVFile = Default::default();
    let result = default_file.modify_row(20, "new".to_owned());
    assert_eq!(result, Err(CSVError::InvalidRowIndex));
}

#[test]
fn test_modify_row_more_entries() {
    let mut default_file: CSVFile = Default::default();
    default_file.num_rows = 1;
    let result = default_file.modify_row(1, "new".to_owned());
    assert_eq!(result, Err(CSVError::MoreEntriesThanRequired));
}

#[test]
fn test_modify_row_less_entries() {
    let mut default_file: CSVFile = Default::default();
    default_file.num_rows = 1;
    default_file.num_cols = 2;
    let result = default_file.modify_row(1, "new".to_owned());
    assert_eq!(result, Err(CSVError::LessEntriesThanRequired));
}

#[test]
fn test_modify_col_invalid_col_index() {
    let mut default_file: CSVFile = Default::default();
    let result = default_file.modify_column(20, "new".to_owned());
    assert_eq!(result, Err(CSVError::InvalidColIndex));
}

#[test]
fn test_modify_col_more_entries() {
    let mut default_file: CSVFile = Default::default();
    default_file.num_cols = 1;
    let result = default_file.modify_column(1, "a".to_owned());
    assert_eq!(result, Err(CSVError::MoreEntriesThanRequired));
}

#[test]
fn test_modify_col_less_entries() {
    let mut default_file: CSVFile = Default::default();
    default_file.num_rows = 2;
    default_file.num_cols = 1;
    let result = default_file.modify_column(1, "new".to_owned());
    assert_eq!(result, Err(CSVError::LessEntriesThanRequired));
}

#[test]
fn test_modify_entry_invalid_row_index() {
    let mut default_file: CSVFile = Default::default();
    let result = default_file.update_entry(1, 1, "new".to_owned());
    assert_eq!(result, Err(CSVError::InvalidRowIndex));
}

#[test]
fn test_modify_entry_invalid_col_index() {
    let mut default_file: CSVFile = Default::default();
    default_file.num_rows = 1;
    let result = default_file.update_entry(1, 1, "new".to_owned());
    assert_eq!(result, Err(CSVError::InvalidColIndex));
}

#[test]
fn test_merge_files_invalid_dimensions() {
    let mut default_file: CSVFile = Default::default();
    default_file.num_cols = 1;
    let other_file: CSVFile = Default::default();
    let result = default_file.merge_files(&other_file);
    assert_eq!(result, Err(CSVError::InvalidDimensions));
}

#[test]
fn test_add_row_less_entries() {
    let mut default_file: CSVFile = Default::default();
    default_file.num_cols = 2;
    let result = default_file.add_row("a".to_owned());
    assert_eq!(result, Err(CSVError::LessEntriesThanRequired));
}

#[test]
fn test_add_row_more_entries() {
    let mut default_file: CSVFile = Default::default();
    let result = default_file.add_row("".to_owned());
    assert_eq!(result, Err(CSVError::MoreEntriesThanRequired));
}

#[test]
fn test_add_col_less_entries() {
    let mut default_file: CSVFile = Default::default();
    default_file.num_rows = 1;
    let result = default_file.add_column("".to_owned());
    assert_eq!(result, Err(CSVError::LessEntriesThanRequired));
}

#[test]
fn test_add_col_more_entries() {
    let mut default_file: CSVFile = Default::default();
    let result = default_file.add_column("a,b".to_owned());
    assert_eq!(result, Err(CSVError::MoreEntriesThanRequired));
}
