use csv_parser::parser::{Csv, CsvParser};
use csv_parser::tokenizer::CsvTokenizer;

fn rows(input: &str, delimiter: char) -> Vec<Vec<String>> {
    Csv::parse(input, delimiter)
        .lines
        .into_iter()
        .map(|l| l.values)
        .collect()
}

#[test]
fn it_gets_lines_from_csv() {
    let input = "abc,def\n123,456";
    let mut parser = CsvParser::new(CsvTokenizer::new(input, ','));
    let line = parser.get_line();
    assert_eq!(line.values, vec!["abc", "def"]);
    let line = parser.get_line();
    assert_eq!(line.values, vec!["123", "456"]);
}

#[test]
fn get_line_returns_no_fields_once_exhausted() {
    let mut parser = CsvParser::new(CsvTokenizer::new("a", ','));
    assert!(!parser.is_done());
    assert_eq!(parser.get_line().values, vec!["a"]);
    assert!(parser.is_done());
    assert!(parser.get_line().values.is_empty());
}

#[test]
fn document_of_headers_and_values() {
    assert_eq!(
        rows("head1,head2,head3\nval1,val2,val3", ','),
        vec![vec!["head1", "head2", "head3"], vec!["val1", "val2", "val3"]]
    );
}

#[test]
fn quoted_fields_keep_delimiters_and_newlines() {
    assert_eq!(
        rows("\"abc,def\",\"123\n456\"", ','),
        vec![vec!["abc,def", "123\n456"]]
    );
}

#[test]
fn empty_input_has_no_rows() {
    assert!(rows("", ',').is_empty());
}

#[test]
fn consecutive_delimiters_read_as_an_empty_field() {
    assert_eq!(rows("a,,b", ','), vec![vec!["a", "", "b"]]);
}

#[test]
fn trailing_newline_adds_no_row() {
    assert_eq!(rows("a,b\nc,d\n", ','), rows("a,b\nc,d", ','));
    assert_eq!(rows("a,b\n", ','), vec![vec!["a", "b"]]);
    assert_eq!(rows("x,\"ab\n", ',').len(), rows("x,\"ab", ',').len());
}

#[test]
fn blank_lines_hold_no_row() {
    assert_eq!(rows("a\n\n\nb", ','), vec![vec!["a"], vec!["b"]]);
    assert!(rows("\n\n", ',').is_empty());
}

#[test]
fn joined_plain_fields_read_back() {
    let fields = vec!["id", "", "name", "x y"];
    let text = fields.join(";");
    let read = rows(&text, ';');
    assert_eq!(read, vec![fields.clone()]);
    assert_eq!(read[0].join(";"), text);
}

#[test]
fn trailing_delimiter_gives_an_empty_last_field() {
    assert_eq!(rows("a,\nb", ','), vec![vec!["a", ""], vec!["b"]]);
}
