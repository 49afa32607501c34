use rusty_data::datatable::{DataColumn, DataTable};
use rusty_data::error::DataError;

fn column(values: &[&str]) -> DataColumn {
    let mut dc = DataColumn::empty();
    for v in values {
        dc.push(v.to_string());
    }
    dc
}

#[test]
fn push_then_len_and_data() {
    let dc = column(&["a", "b"]);
    assert_eq!(dc.len(), 2);
    assert_eq!(dc.data(), &vec!["a".to_string(), "b".to_string()]);
    assert!(dc.categories().is_none());
}

#[test]
fn cast_all_or_nothing() {
    let dc = column(&["1", "x"]);
    assert_eq!(dc.cast::<i64>(), None);
}

#[test]
fn cast_parses_each_value() {
    let dc = column(&["1", "-2", "+3", "0"]);
    assert_eq!(dc.cast::<i64>(), Some(vec![1i64, -2, 3, 0]));
    assert_eq!(dc.cast::<u64>(), None);
    let dc = column(&["7", "+8"]);
    assert_eq!(dc.cast::<u64>(), Some(vec![7u64, 8]));
}

#[test]
fn cast_rejects_malformed_numbers() {
    for bad in ["", "+", "-", " 1", "1 ", "1.5", "--1", "9223372036854775808"] {
        assert_eq!(column(&[bad]).cast::<i64>(), None, "{:?}", bad);
    }
    assert_eq!(column(&["-9223372036854775808"]).cast::<i64>(), Some(vec![i64::MIN]));
    assert_eq!(column(&["18446744073709551615"]).cast::<u64>(), Some(vec![u64::MAX]));
    assert_eq!(column(&["18446744073709551616"]).cast::<u64>(), None);
}

#[test]
fn cast_to_text_keeps_values() {
    let dc = column(&["x", "", "1"]);
    assert_eq!(dc.cast::<String>(), Some(vec!["x".to_string(), String::new(), "1".to_string()]));
}

#[test]
fn get_as_parses_or_reports_cast_error() {
    let dc = column(&["42", "x"]);
    assert_eq!(dc.get_as::<i64>(0), Ok(42));
    assert_eq!(dc.get_as::<i64>(1), Err(DataError::DataCastError));
}

#[test]
fn into_vec_reports_cast_error() {
    assert_eq!(column(&["5", "6"]).into_vec::<u64>(), Ok(vec![5u64, 6]));
    assert_eq!(column(&["5", "y"]).into_vec::<u64>(), Err(DataError::DataCastError));
}

#[test]
fn into_iter_cast_keeps_each_outcome() {
    let r = column(&["1", "b", "3"]).into_iter_cast::<i64>();
    assert_eq!(r, vec![Ok(1), Err(DataError::DataCastError), Ok(3)]);
}

#[test]
fn update_categories_first_seen_order() {
    let mut dc = column(&["Class1", "Class2", "Class2", "Class3", "Class1"]);
    dc.update_categories();
    let cats = dc.categories().unwrap();
    assert_eq!(cats, vec!["Class1".to_string(), "Class2".to_string(), "Class3".to_string()]);
}

#[test]
fn numeric_category_data_one_hot() {
    let mut dc = column(&["Class1", "Class2", "Class2"]);
    dc.update_categories();
    let data = dc.numeric_category_data::<i64>().unwrap();
    assert_eq!(data, vec![vec![1i64, 0, 0], vec![0, 1, 1]]);
    let data = dc.numeric_category_data::<u64>().unwrap();
    assert_eq!(data, vec![vec![1u64, 0, 0], vec![0, 1, 1]]);
}

#[test]
fn one_hot_rows_sum_to_one() {
    let mut dc = column(&["b", "a", "c", "a", "b", "d"]);
    dc.update_categories();
    let data = dc.numeric_category_data::<i64>().unwrap();
    assert_eq!(data.len(), 4);
    for r in 0..dc.len() {
        let sum: i64 = data.iter().map(|c| c[r]).sum();
        assert_eq!(sum, 1);
    }
}

#[test]
fn numeric_category_data_needs_categories() {
    let dc = column(&["a"]);
    assert_eq!(dc.numeric_category_data::<i64>(), Err(DataError::InvalidStateError));
}

#[test]
fn numeric_category_data_stale_categories() {
    let mut dc = column(&["a"]);
    dc.update_categories();
    dc.push("b".to_string());
    assert_eq!(dc.numeric_category_data::<i64>(), Err(DataError::InvalidStateError));
    dc.update_categories();
    assert_eq!(dc.numeric_category_data::<i64>(), Ok(vec![vec![1i64, 0], vec![0, 1]]));
}

#[test]
fn empty_column_categories() {
    let mut dc = DataColumn::empty();
    dc.update_categories();
    assert_eq!(dc.categories(), Some(vec![]));
    assert_eq!(dc.numeric_category_data::<i64>(), Ok(vec![]));
}

#[test]
fn shrink_keeps_values() {
    let mut dc = column(&["1", "2"]);
    dc.set_name("n".to_string());
    dc.shrink_to_fit();
    assert_eq!(dc.len(), 2);
    assert_eq!(dc.name, Some("n".to_string()));
    let mut t = DataTable::empty();
    t.data_cols.push(dc);
    t.shrink_to_fit();
    assert_eq!(t.column(0).data(), &vec!["1".to_string(), "2".to_string()]);
}

fn table(cols: &[&[&str]]) -> DataTable {
    let mut t = DataTable::empty();
    for c in cols {
        t.data_cols.push(column(c));
    }
    t
}

#[test]
fn table_rows_and_cols() {
    let t = DataTable::empty();
    assert_eq!(t.cols(), 0);
    assert_eq!(t.rows(), 0);
    let t = table(&[&["1", "2", "3"], &["a", "b", "c"]]);
    assert_eq!(t.cols(), 2);
    assert_eq!(t.rows(), 3);
}

#[test]
fn consistent_data_column_and_row_major() {
    let t = table(&[&["1", "2"], &["a", "b"]]);
    let cm = t.into_consistent_data::<String>(false).unwrap();
    assert_eq!(cm, vec!["1", "2", "a", "b"]);
    let t = table(&[&["1", "2"], &["a", "b"]]);
    let rm = t.into_consistent_data::<String>(true).unwrap();
    assert_eq!(rm, vec!["1", "a", "2", "b"]);
}

#[test]
fn consistent_data_numeric() {
    let t = table(&[&["1", "2", "3"], &["4", "5", "6"]]);
    assert_eq!(t.into_consistent_data::<i64>(true), Ok(vec![1, 4, 2, 5, 3, 6]));
    let t = table(&[&["1", "2", "3"], &["4", "5", "6"]]);
    assert_eq!(t.into_consistent_data::<i64>(false), Ok(vec![1, 2, 3, 4, 5, 6]));
}

#[test]
fn consistent_data_cast_error() {
    let t = table(&[&["1", "2"], &["3", "x"]]);
    assert_eq!(t.into_consistent_data::<i64>(true), Err(DataError::DataCastError));
    let t = table(&[&["1", "2"], &["3", "x"]]);
    assert_eq!(t.into_consistent_data::<i64>(false), Err(DataError::DataCastError));
}

#[test]
fn ragged_table_is_invalid_state() {
    for row_major in [true, false] {
        let mut t = table(&[&["1", "2"], &["3", "4"]]);
        t.data_cols[1].push("5".to_string());
        assert_eq!(t.into_consistent_data::<i64>(row_major), Err(DataError::InvalidStateError));
        let t = table(&[&["1", "2"], &["3"]]);
        assert_eq!(t.into_consistent_data::<i64>(row_major), Err(DataError::InvalidStateError));
    }
}

#[test]
fn empty_table_exports_nothing() {
    assert_eq!(DataTable::empty().into_consistent_data::<i64>(true), Ok(vec![]));
    assert_eq!(DataTable::empty().into_consistent_data::<i64>(false), Ok(vec![]));
}

#[test]
fn error_names() {
    assert_eq!(DataError::DataCastError.name(), "DataCastError");
    assert_eq!(DataError::InvalidStateError.name(), "InvalidStateError");
    assert_eq!(DataError::DataCastError.description(), "Failed to cast data.");
    assert_eq!(
        DataError::InvalidStateError.description(),
        "Operation was not valid for state of object."
    );
}
