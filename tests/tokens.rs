use csv_parser::tokenizer::{CsvToken, CsvTokenizer};

fn all_tokens(input: &str, delimiter: char) -> Vec<CsvToken<'_>> {
    let mut t = CsvTokenizer::new(input, delimiter);
    let mut out = Vec::new();
    while let Some(token) = t.next() {
        out.push(token);
    }
    out
}

#[test]
fn it_handles_empty_input() {
    let mut t = CsvTokenizer::new("", ',');
    assert_eq!(t.next(), None);
}

#[test]
fn it_handles_single_char_fields_with_newlines_and_delimiters() {
    let mut t = CsvTokenizer::new("1,2,3\n4,5,6", ',');
    assert_eq!(t.next(), Some(CsvToken::Field("1")));
    assert_eq!(t.next(), Some(CsvToken::Delimiter));
    assert_eq!(t.next(), Some(CsvToken::Field("2")));
    assert_eq!(t.next(), Some(CsvToken::Delimiter));
    assert_eq!(t.next(), Some(CsvToken::Field("3")));
    assert_eq!(t.next(), Some(CsvToken::Newline));
    assert_eq!(t.next(), Some(CsvToken::Field("4")));
    assert_eq!(t.next(), Some(CsvToken::Delimiter));
    assert_eq!(t.next(), Some(CsvToken::Field("5")));
    assert_eq!(t.next(), Some(CsvToken::Delimiter));
    assert_eq!(t.next(), Some(CsvToken::Field("6")));
    assert_eq!(t.next(), None);
}

#[test]
fn it_handles_multiple_char_fields() {
    let mut t = CsvTokenizer::new("abc,def", ',');
    assert_eq!(t.next(), Some(CsvToken::Field("abc")));
    assert_eq!(t.next(), Some(CsvToken::Delimiter));
    assert_eq!(t.next(), Some(CsvToken::Field("def")));
    assert_eq!(t.next(), None);
}

#[test]
fn it_handles_quoted_fields() {
    let mut t = CsvTokenizer::new(
        r#""abc,def","123
456""#,
        ',',
    );
    assert_eq!(t.next(), Some(CsvToken::Field("abc,def")));
    assert_eq!(t.next(), Some(CsvToken::Delimiter));
    assert_eq!(t.next(), Some(CsvToken::Field("123\n456")));
    assert_eq!(t.next(), None);
}

#[test]
fn exhausted_tokenizer_stays_exhausted() {
    let mut t = CsvTokenizer::new("a", ',');
    assert_eq!(t.next(), Some(CsvToken::Field("a")));
    assert!(t.is_done());
    assert_eq!(t.next(), None);
    assert_eq!(t.next(), None);
    assert!(t.is_done());
}

#[test]
fn consecutive_delimiters_give_an_empty_field() {
    assert_eq!(
        all_tokens("a,,b", ','),
        vec![
            CsvToken::Field("a"),
            CsvToken::Delimiter,
            CsvToken::Field(""),
            CsvToken::Delimiter,
            CsvToken::Field("b"),
        ]
    );
}

#[test]
fn leading_and_trailing_delimiters_give_empty_fields() {
    assert_eq!(
        all_tokens(",a,", ','),
        vec![
            CsvToken::Field(""),
            CsvToken::Delimiter,
            CsvToken::Field("a"),
            CsvToken::Delimiter,
            CsvToken::Field(""),
        ]
    );
    assert_eq!(
        all_tokens("a,\nb", ','),
        vec![
            CsvToken::Field("a"),
            CsvToken::Delimiter,
            CsvToken::Field(""),
            CsvToken::Newline,
            CsvToken::Field("b"),
        ]
    );
}

#[test]
fn trailing_newline_is_a_last_newline_token() {
    assert_eq!(
        all_tokens("a\n", ','),
        vec![CsvToken::Field("a"), CsvToken::Newline]
    );
}

#[test]
fn unterminated_quote_runs_to_the_end() {
    assert_eq!(
        all_tokens("x,\"ab,c\nd", ','),
        vec![
            CsvToken::Field("x"),
            CsvToken::Delimiter,
            CsvToken::Field("ab,c\nd"),
        ]
    );
}

#[test]
fn empty_quoted_field() {
    assert_eq!(
        all_tokens("\"\",a", ','),
        vec![CsvToken::Field(""), CsvToken::Delimiter, CsvToken::Field("a")]
    );
}

#[test]
fn text_after_a_closing_quote_is_another_field() {
    assert_eq!(
        all_tokens("\"ab\"cd,e", ','),
        vec![
            CsvToken::Field("ab"),
            CsvToken::Field("cd"),
            CsvToken::Delimiter,
            CsvToken::Field("e"),
        ]
    );
}

#[test]
fn other_delimiters() {
    assert_eq!(
        all_tokens("a;b,c", ';'),
        vec![CsvToken::Field("a"), CsvToken::Delimiter, CsvToken::Field("b,c")]
    );
    assert_eq!(
        all_tokens("ü\tö", '\t'),
        vec![CsvToken::Field("ü"), CsvToken::Delimiter, CsvToken::Field("ö")]
    );
    assert_eq!(
        all_tokens("aébé", 'é'),
        vec![CsvToken::Field("a"), CsvToken::Delimiter, CsvToken::Field("b"), CsvToken::Delimiter, CsvToken::Field("")]
    );
}

#[test]
fn delimiters_are_one_fewer_than_fields_in_each_row() {
    let tokens = all_tokens("a,b,,c\n,x\n\ny,\"q,r\"", ',');
    let mut rows: Vec<(usize, usize)> = Vec::new();
    let mut fields = 0;
    let mut delimiters = 0;
    for token in tokens {
        match token {
            CsvToken::Field(_) => fields += 1,
            CsvToken::Delimiter => delimiters += 1,
            CsvToken::Newline => {
                rows.push((fields, delimiters));
                fields = 0;
                delimiters = 0;
            }
        }
    }
    rows.push((fields, delimiters));
    assert_eq!(rows, vec![(4, 3), (2, 1), (0, 0), (2, 1)]);
}

#[test]
fn multi_byte_text_in_quoted_and_plain_fields() {
    assert_eq!(
        all_tokens("\"é,ü\n\",日本\n€", ','),
        vec![
            CsvToken::Field("é,ü\n"),
            CsvToken::Delimiter,
            CsvToken::Field("日本"),
            CsvToken::Newline,
            CsvToken::Field("€"),
        ]
    );
}
