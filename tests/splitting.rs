use rusty_data::datatable::DataTable;
use rusty_data::loader::{LineSplitIter, Loader, LoaderOptions};

fn split(line: &str, quote: Option<char>, delim: char) -> Vec<String> {
    LineSplitIter::new(line.to_string(), quote, delim).into_fields()
}

#[test]
fn quoted_delimiter_stays_in_field() {
    assert_eq!(split("a,\"b,c\",d", Some('"'), ','), vec!["a", "b,c", "d"]);
}

#[test]
fn plain_split_round_trip() {
    for line in ["a,b,c", "a,,b,", ",", "abc", ",x", "é,ü,", "a\"b,c"] {
        let fields = split(line, None, ',');
        assert_eq!(fields.join(","), line);
    }
    assert_eq!(split("a,,b,", None, ','), vec!["a", "", "b", ""]);
}

#[test]
fn empty_line_has_no_field() {
    assert!(split("", None, ',').is_empty());
    assert!(split("", Some('"'), ',').is_empty());
}

#[test]
fn field_count_is_unquoted_delimiters_plus_one() {
    let line = "\"x,y\",z,\"w\"";
    assert_eq!(split(line, Some('"'), ','), vec!["x,y", "z", "\"w\""]);
    assert_eq!(split("\"a\";\"b;c\";", Some('"'), ';'), vec!["a", "b;c", ""]);
}

#[test]
fn unterminated_quote_swallows_the_rest() {
    assert_eq!(split("a,\"b,c,d", Some('"'), ','), vec!["a", "\"b,c,d"]);
}

#[test]
fn next_yields_fields_in_order() {
    let mut it = LineSplitIter::new("1|2|".to_string(), None, '|');
    assert_eq!(it.next(), Some("1".to_string()));
    assert_eq!(it.next(), Some("2".to_string()));
    assert_eq!(it.next(), Some(String::new()));
    assert_eq!(it.next(), None);
    assert_eq!(it.next(), None);
}

#[test]
fn default_options() {
    let o = LoaderOptions::default();
    assert!(!o.has_header);
    assert_eq!(o.delimiter, ',');
    assert_eq!(o.quote_marker, None);
}

#[test]
fn loader_constructors() {
    let l = Loader::new(true, "data.csv", ';');
    assert_eq!(l.file(), "data.csv");
    assert!(l.options().has_header);
    assert_eq!(l.options().delimiter, ';');
    let l = Loader::from_file_string("x.data");
    assert_eq!(l.file(), "x.data");
    assert!(!l.options().has_header);
    assert_eq!(l.options().delimiter, ',');
}

fn lines(ls: &[&str]) -> Vec<String> {
    ls.iter().map(|s| s.to_string()).collect()
}

#[test]
fn load_lines_with_header() {
    let l = Loader::new(true, "f", ',');
    let t: DataTable = l.load_lines(&lines(&["x,y", "1,2", "3,4"])).unwrap();
    assert_eq!(t.cols(), 2);
    assert_eq!(t.rows(), 2);
    assert_eq!(t.column(0).name, Some("x".to_string()));
    assert_eq!(t.column(1).data(), &vec!["2".to_string(), "4".to_string()]);
}

#[test]
fn load_lines_without_header() {
    let l = Loader::from_file_string("f");
    let t = l.load_lines(&lines(&["1,2", "3,4"])).unwrap();
    assert_eq!(t.rows(), 2);
    assert_eq!(t.column(0).name, None);
    assert_eq!(t.into_consistent_data::<i64>(true), Ok(vec![1, 2, 3, 4]));
}

#[test]
fn load_lines_rejects_ragged_rows() {
    let l = Loader::from_file_string("f");
    assert!(l.load_lines(&lines(&["1,2", "3,4,5"])).is_none());
    assert!(l.load_lines(&lines(&["1,2", "3"])).is_none());
    assert!(l.load_lines(&lines(&[])).unwrap().cols() == 0);
}
