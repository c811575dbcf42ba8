use vstd::prelude::*;
use crate::tokenizer::{tokens, CsvToken, CsvTokenizer, TokenView};

verus! {

/// The fields of the row that starts `ts`, up to its first newline, and the
/// tokens after that newline (none where there is no newline).
pub open spec fn line_from(ts: Seq<TokenView>) -> (Seq<Seq<char>>, Seq<TokenView>)
    decreases ts.len(),
{
    if ts.len() == 0 {
        (Seq::empty(), Seq::empty())
    } else {
        match ts[0] {
            TokenView::Field(f) => {
                let (fields, rest) = line_from(ts.drop_first());
                (seq![f] + fields, rest)
            },
            TokenView::Delimiter => line_from(ts.drop_first()),
            TokenView::Newline => (Seq::empty(), ts.drop_first()),
        }
    }
}

pub proof fn lemma_line_from_shorter(ts: Seq<TokenView>)
    requires
        ts.len() > 0,
    ensures
        line_from(ts).1.len() < ts.len(),
    decreases ts.len(),
{
    let tail = ts.drop_first();
    if tail.len() > 0 {
        lemma_line_from_shorter(tail);
    } else {
        assert(line_from(tail).1.len() == 0);
    }
}

/// The rows of a token stream: one per newline-separated stretch that holds
/// at least one field.
pub open spec fn rows_of(ts: Seq<TokenView>) -> Seq<Seq<Seq<char>>>
    decreases ts.len(),
{
    if ts.len() == 0 {
        Seq::empty()
    } else {
        let (fields, rest) = line_from(ts);
        proof {
            lemma_line_from_shorter(ts);
        }
        if fields.len() == 0 {
            rows_of(rest)
        } else {
            seq![fields] + rows_of(rest)
        }
    }
}

/// The document that a text reads as, with delimiter `d`.
pub open spec fn document(s: Seq<char>, d: char) -> Seq<Seq<Seq<char>>> {
    rows_of(tokens(s, d))
}

/// The texts of a sequence of strings.
pub open spec fn texts(v: Seq<String>) -> Seq<Seq<char>> {
    v.map_values(|x: String| x@)
}

/// One row: its fields in column order.
#[derive(Debug, PartialEq)]
pub struct CsvLine {
    pub values: Vec<String>,
}

impl View for CsvLine {
    type V = Seq<Seq<char>>;

    open spec fn view(&self) -> Seq<Seq<char>> {
        texts(self.values@)
    }
}

/// A document: its rows in order.
#[derive(Debug, PartialEq)]
pub struct Csv {
    pub lines: Vec<CsvLine>,
}

impl View for Csv {
    type V = Seq<Seq<Seq<char>>>;

    open spec fn view(&self) -> Seq<Seq<Seq<char>>> {
        self.lines@.map_values(|l: CsvLine| l@)
    }
}

impl Csv {
    /// Reads a whole text as a document: every row that holds at least one
    /// field, in order. Rows without fields, such as blank lines or what
    /// follows a trailing newline, are left out.
    pub fn parse(input: &str, delimiter: char) -> (r: Csv)
        ensures
            r@ == document(input@, delimiter),
    {
        let mut parser = CsvParser::new(CsvTokenizer::new(input, delimiter));
        let mut lines: Vec<CsvLine> = Vec::new();
        while !parser.is_done()
            invariant
                parser.wf(),
                lines@.map_values(|l: CsvLine| l@) + rows_of(parser.remaining()) == document(
                    input@,
                    delimiter,
                ),
            decreases parser.remaining().len(),
        {
            let ghost before = parser.remaining();
            let ghost shown = lines@.map_values(|l: CsvLine| l@);
            proof {
                lemma_line_from_shorter(before);
            }
            let line = parser.get_line();
            if line.values.len() > 0 {
                lines.push(line);
                assert(lines@.map_values(|l: CsvLine| l@) =~= shown.push(line@));
                assert(shown + rows_of(before) =~= shown.push(line@) + rows_of(parser.remaining()));
            } else {
                assert(line@.len() == 0);
            }
        }
        let ghost shown = lines@.map_values(|l: CsvLine| l@);
        assert(shown + Seq::<Seq<Seq<char>>>::empty() =~= shown);
        Csv { lines }
    }
}

/// Groups the tokens of a tokenizer into rows.
#[derive(Debug)]
pub struct CsvParser<'a> {
    tokenizer: CsvTokenizer<'a>,
}

impl<'a> CsvParser<'a> {
    /// The wrapped tokenizer is well formed.
    pub closed spec fn wf(&self) -> bool {
        self.tokenizer.wf()
    }

    /// The tokens that the parser has not consumed yet.
    pub closed spec fn remaining(&self) -> Seq<TokenView> {
        self.tokenizer.remaining()
    }

    /// A parser that reads its rows from `tokenizer`.
    pub fn new(tokenizer: CsvTokenizer<'a>) -> (r: CsvParser<'a>)
        requires
            tokenizer.wf(),
        ensures
            r.wf(),
            r.remaining() == tokenizer.remaining(),
    {
        CsvParser { tokenizer }
    }

    /// Reads the next row: the fields up to the next newline, which is
    /// consumed, or up to the end of the input. Delimiters are dropped.
    pub fn get_line(&mut self) -> (r: CsvLine)
        requires
            old(self).wf(),
        ensures
            final(self).wf(),
            r@ == line_from(old(self).remaining()).0,
            final(self).remaining() == line_from(old(self).remaining()).1,
    {
        let mut values: Vec<String> = Vec::new();
        loop
            invariant_except_break
                self.wf(),
                line_from(old(self).remaining()) == (
                    texts(values@) + line_from(self.remaining()).0,
                    line_from(self.remaining()).1,
                ),
            ensures
                self.wf(),
                texts(values@) == line_from(old(self).remaining()).0,
                self.remaining() == line_from(old(self).remaining()).1,
            decreases self.remaining().len(),
        {
            let ghost before = self.remaining();
            let ghost shown = texts(values@);
            match self.tokenizer.next() {
                None => {
                    assert(shown + Seq::<Seq<char>>::empty() =~= shown);
                    break;
                },
                Some(CsvToken::Newline) => {
                    assert(shown + Seq::<Seq<char>>::empty() =~= shown);
                    break;
                },
                Some(CsvToken::Delimiter) => {},
                Some(CsvToken::Field(f)) => {
                    values.push(f.to_owned());
                    assert(texts(values@) =~= shown.push(f@));
                    let ghost later = line_from(self.remaining()).0;
                    assert(shown + line_from(before).0 =~= shown.push(f@) + later);
                },
            }
        }
        CsvLine { values }
    }

    /// Whether every token has been consumed.
    pub fn is_done(&self) -> (r: bool)
        requires
            self.wf(),
        ensures
            r == (self.remaining().len() == 0),
    {
        self.tokenizer.is_done()
    }
}

} // verus!
