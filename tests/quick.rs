use csv_parser::parser::Csv;

#[test]
fn it_parses_csv_with_strings() {
    let input = "head1,head2,head3
val1,val2,val3";

    let csv: Csv = Csv::from(input);

    assert_eq!(csv.lines.len(), 2);
    assert_eq!(csv.lines[0].values, vec!["head1", "head2", "head3"]);
    assert_eq!(csv.lines[1].values, vec!["val1", "val2", "val3"]);
}

#[test]
fn it_parses_csv_with_quoted_values() {
    let input = r#"head1","head2","head3"
"val1","val2","val3""#;

    let csv: Csv = Csv::from(input);

    assert_eq!(csv.lines.len(), 2);
    assert_eq!(csv.lines[0].values, vec!["head1", "head2", "head3"]);
    assert_eq!(csv.lines[1].values, vec!["val1", "val2", "val3"]);
}

#[test]
fn quick_reading_trims_the_text_and_carriage_returns() {
    let csv = Csv::from("  \n a,b\r\nc\t\n\n");
    let rows: Vec<Vec<String>> = csv.lines.into_iter().map(|l| l.values).collect();
    assert_eq!(rows, vec![vec!["a", "b"], vec!["c"]]);
}

#[test]
fn quick_reading_keeps_inner_blank_lines() {
    let csv = Csv::from("a\n\nb");
    let rows: Vec<Vec<String>> = csv.lines.into_iter().map(|l| l.values).collect();
    assert_eq!(rows, vec![vec!["a"], vec![""], vec!["b"]]);
}

#[test]
fn quick_reading_of_empty_text() {
    assert!(Csv::from("").lines.is_empty());
    assert!(Csv::from(" \t\n").lines.is_empty());
}

#[test]
fn line_to_vec_strips_quotes_at_both_ends() {
    let line = Csv::line_to_vec("\"\"a\"b\"\",\"\"\"\",,c");
    assert_eq!(line.values, vec!["a\"b", "", "", "c"]);
}

#[test]
fn quick_reading_trims_unicode_white_space() {
    let csv = Csv::from("\u{3000}\u{a0}é,\"ß\"\u{2029}");
    assert_eq!(csv.lines.len(), 1);
    assert_eq!(csv.lines[0].values, vec!["é", "ß"]);
}
