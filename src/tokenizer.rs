use vstd::prelude::*;
use vstd::utf8::encode_utf8;
use crate::text::{lemma_encode_extend, lemma_encode_one, split_after, utf8_width};

verus! {

/// A token as the logic sees it: the text of a field, or a separator.
pub enum TokenView {
    Field(Seq<char>),
    Delimiter,
    Newline,
}

/// What the tokenizer has just produced, which decides how an empty field
/// is read at a separator or at the end of the input.
#[derive(Debug, Clone, Copy, PartialEq, Eq, Structural)]
pub enum Phase {
    /// At the start of the input or just after a newline.
    RowStart,
    /// Just after a delimiter: a field is owed, possibly an empty one.
    AfterDelimiter,
    /// Just after a field.
    AfterField,
}

/// The first index at or after `i` that holds a double quote, or the end of `s`.
pub open spec fn quote_end(s: Seq<char>, i: int) -> int
    decreases s.len() - i,
{
    if i >= s.len() {
        s.len() as int
    } else if s[i] == '"' {
        i
    } else {
        quote_end(s, i + 1)
    }
}

/// The first index at or after `i` that holds the delimiter or a newline,
/// or the end of `s`.
pub open spec fn plain_end(s: Seq<char>, d: char, i: int) -> int
    decreases s.len() - i,
{
    if i >= s.len() {
        s.len() as int
    } else if s[i] == d || s[i] == '\n' {
        i
    } else {
        plain_end(s, d, i + 1)
    }
}

/// One step of the tokenizer at `pos` in `s`: the token produced, the next
/// position and the next phase; `None` once the input is exhausted.
///
/// A newline comes before the delimiter in the order of tests, and a field
/// starts at any other character. A field that starts with a double quote
/// runs to the next double quote, which is dropped with the opening one; if
/// there is none, it runs to the end of the input. Where a field is owed at
/// a delimiter, at a newline after a delimiter, or at the end of the input
/// after a delimiter, it is an empty field; so is the first field of a row
/// that starts with a delimiter.
pub open spec fn step(s: Seq<char>, d: char, pos: int, phase: Phase) -> Option<
    (TokenView, int, Phase),
> {
    if pos >= s.len() {
        if phase == Phase::AfterDelimiter {
            Some((TokenView::Field(Seq::empty()), pos, Phase::AfterField))
        } else {
            None
        }
    } else if s[pos] == '\n' {
        if phase == Phase::AfterDelimiter {
            Some((TokenView::Field(Seq::empty()), pos, Phase::AfterField))
        } else {
            Some((TokenView::Newline, pos + 1, Phase::RowStart))
        }
    } else if s[pos] == d {
        if phase == Phase::AfterField {
            Some((TokenView::Delimiter, pos + 1, Phase::AfterDelimiter))
        } else {
            Some((TokenView::Field(Seq::empty()), pos, Phase::AfterField))
        }
    } else if s[pos] == '"' {
        let e = quote_end(s, pos + 1);
        let next = if e < s.len() { e + 1 } else { e };
        Some((TokenView::Field(s.subrange(pos + 1, e)), next, Phase::AfterField))
    } else {
        let e = plain_end(s, d, pos + 1);
        Some((TokenView::Field(s.subrange(pos, e)), e, Phase::AfterField))
    }
}

pub open spec fn phase_weight(phase: Phase) -> int {
    if phase == Phase::AfterField { 0 } else { 1 }
}

pub proof fn lemma_quote_end_bounds(s: Seq<char>, i: int)
    requires
        0 <= i <= s.len(),
    ensures
        i <= quote_end(s, i) <= s.len(),
        quote_end(s, i) < s.len() ==> s[quote_end(s, i)] == '"',
    decreases s.len() - i,
{
    if i < s.len() && s[i] != '"' {
        lemma_quote_end_bounds(s, i + 1);
    }
}

pub proof fn lemma_plain_end_bounds(s: Seq<char>, d: char, i: int)
    requires
        0 <= i <= s.len(),
    ensures
        i <= plain_end(s, d, i) <= s.len(),
        plain_end(s, d, i) < s.len() ==> (s[plain_end(s, d, i)] == d || s[plain_end(s, d, i)]
            == '\n'),
    decreases s.len() - i,
{
    if i < s.len() && !(s[i] == d || s[i] == '\n') {
        lemma_plain_end_bounds(s, d, i + 1);
    }
}

/// Each step stays within the input and makes progress by the measure
/// that `tokens_from` decreases on.
pub proof fn lemma_step_progress(s: Seq<char>, d: char, pos: int, phase: Phase)
    requires
        0 <= pos <= s.len(),
        step(s, d, pos, phase) is Some,
    ensures
        ({
            let (t, p, ph) = step(s, d, pos, phase)->0;
            &&& pos <= p <= s.len()
            &&& 2 * (s.len() - p) + phase_weight(ph) < 2 * (s.len() - pos) + phase_weight(phase)
        }),
{
    if pos < s.len() && s[pos] != '\n' && s[pos] != d {
        if s[pos] == '"' {
            lemma_quote_end_bounds(s, pos + 1);
        } else {
            lemma_plain_end_bounds(s, d, pos + 1);
        }
    }
}

/// All tokens that the tokenizer produces from the state `(pos, phase)` on.
pub open spec fn tokens_from(s: Seq<char>, d: char, pos: int, phase: Phase) -> Seq<TokenView>
    decreases 2 * (s.len() - pos) + phase_weight(phase),
{
    if pos < 0 || pos > s.len() {
        Seq::empty()
    } else {
        match step(s, d, pos, phase) {
            None => Seq::empty(),
            Some((t, p, ph)) => {
                proof {
                    lemma_step_progress(s, d, pos, phase);
                }
                seq![t] + tokens_from(s, d, p, ph)
            },
        }
    }
}

/// The whole token stream of `s` with delimiter `d`.
pub open spec fn tokens(s: Seq<char>, d: char) -> Seq<TokenView> {
    tokens_from(s, d, 0, Phase::RowStart)
}

/// A token of the input: a field's text, borrowed from the input with any
/// surrounding quotes stripped, or a separator.
#[derive(Debug, PartialEq)]
pub enum CsvToken<'a> {
    Field(&'a str),
    Delimiter,
    Newline,
}

impl<'a> View for CsvToken<'a> {
    type V = TokenView;

    open spec fn view(&self) -> TokenView {
        match self {
            CsvToken::Field(f) => TokenView::Field(f@),
            CsvToken::Delimiter => TokenView::Delimiter,
            CsvToken::Newline => TokenView::Newline,
        }
    }
}

/// A forward-only cursor over an input text that yields its tokens one at a
/// time, without copying any of the text.
#[derive(Debug)]
pub struct CsvTokenizer<'a> {
    input: &'a str,
    rest: &'a str,
    delimiter: char,
    phase: Phase,
}

impl<'a> CsvTokenizer<'a> {
    /// The input text.
    pub closed spec fn source(&self) -> Seq<char> {
        self.input@
    }

    /// The delimiter that separates fields.
    pub closed spec fn delimiter_char(&self) -> char {
        self.delimiter
    }

    /// The number of characters consumed so far.
    pub closed spec fn position(&self) -> int {
        self.input@.len() - self.rest@.len()
    }

    /// What is left to read is the input after the position.
    pub closed spec fn wf(&self) -> bool {
        &&& self.rest@.len() <= self.input@.len()
        &&& self.rest@ == self.input@.subrange(self.position(), self.input@.len() as int)
    }

    /// The tokens that are still to come.
    pub closed spec fn remaining(&self) -> Seq<TokenView> {
        tokens_from(self.input@, self.delimiter, self.position(), self.phase)
    }

    /// A tokenizer at the start of `input`; it reads nothing yet.
    pub fn new(input: &'a str, delimiter: char) -> (r: CsvTokenizer<'a>)
        ensures
            r.wf(),
            r.source() == input@,
            r.delimiter_char() == delimiter,
            r.remaining() == tokens(input@, delimiter),
    {
        let r = CsvTokenizer { input, rest: input, delimiter, phase: Phase::RowStart };
        assert(input@.subrange(0, input@.len() as int) =~= input@);
        r
    }

    /// Produces the next token, or `None` once the input is exhausted; after
    /// that every call returns `None`.
    pub fn next(&mut self) -> (r: Option<CsvToken<'a>>)
        requires
            old(self).wf(),
        ensures
            final(self).wf(),
            final(self).source() == old(self).source(),
            final(self).delimiter_char() == old(self).delimiter_char(),
            old(self).remaining().len() == 0 ==> r is None && final(self).remaining() == old(
                self,
            ).remaining(),
            old(self).remaining().len() > 0 ==> r is Some && r->0@ == old(self).remaining()[0]
                && final(self).remaining() == old(self).remaining().drop_first(),
    {
        let ghost s = self.input@;
        let ghost d = self.delimiter;
        let ghost pos = self.position();
        proof {
            let ph = self.phase;
            if step(s, d, pos, ph) is Some {
                lemma_step_progress(s, d, pos, ph);
                let (t, p, ph2) = step(s, d, pos, ph)->0;
                assert(tokens_from(s, d, pos, ph)[0] == t);
                assert(tokens_from(s, d, pos, ph).drop_first() == tokens_from(s, d, p, ph2));
            }
            reveal_strlit("");
            assert(""@ =~= Seq::<char>::empty());
        }
        match self.current() {
            None => {
                if self.phase == Phase::AfterDelimiter {
                    self.phase = Phase::AfterField;
                    Some(CsvToken::Field(""))
                } else {
                    None
                }
            },
            Some(c) => {
                if c == '\n' {
                    if self.phase == Phase::AfterDelimiter {
                        self.phase = Phase::AfterField;
                        Some(CsvToken::Field(""))
                    } else {
                        self.skip_char(c);
                        self.phase = Phase::RowStart;
                        Some(CsvToken::Newline)
                    }
                } else if c == self.delimiter {
                    if self.phase == Phase::AfterField {
                        self.skip_char(c);
                        self.phase = Phase::AfterDelimiter;
                        Some(CsvToken::Delimiter)
                    } else {
                        self.phase = Phase::AfterField;
                        Some(CsvToken::Field(""))
                    }
                } else {
                    let quoted = c == '"';
                    let length = self.chars_until_end_of_field(quoted);
                    let ghost e = if quoted {
                        quote_end(s, pos + 1)
                    } else {
                        plain_end(s, d, pos + 1)
                    };
                    proof {
                        if quoted {
                            lemma_quote_end_bounds(s, pos + 1);
                        } else {
                            lemma_plain_end_bounds(s, d, pos + 1);
                        }
                        assert(self.rest@.subrange(0, e - pos) =~= s.subrange(pos, e));
                    }
                    let (span, tail) = split_after(self.rest, Ghost(e - pos), length);
                    let field = if quoted {
                        proof {
                            lemma_encode_one(span@);
                        }
                        split_after(span, Ghost(1), 1).1
                    } else {
                        span
                    };
                    proof {
                        assert(field@ =~= (if quoted {
                            s.subrange(pos + 1, e)
                        } else {
                            s.subrange(pos, e)
                        }));
                    }
                    if quoted && !tail.is_empty() {
                        proof {
                            lemma_encode_one(tail@);
                        }
                        self.rest = split_after(tail, Ghost(1), 1).1;
                    } else {
                        self.rest = tail;
                    }
                    proof {
                        assert(self.rest@ =~= s.subrange(self.position(), s.len() as int));
                        assert(self.position() == if quoted && e < s.len() { e + 1 } else { e });
                    }
                    self.phase = Phase::AfterField;
                    assert(step(s, d, pos, old(self).phase) == Some(
                        (TokenView::Field(field@), self.position(), Phase::AfterField),
                    ));
                    Some(CsvToken::Field(field))
                }
            },
        }
    }

    /// Whether every token has been produced.
    pub fn is_done(&self) -> (r: bool)
        requires
            self.wf(),
        ensures
            r == (self.remaining().len() == 0),
    {
        self.rest.is_empty() && self.phase != Phase::AfterDelimiter
    }

    /// The character at the cursor, if any.
    fn current(&self) -> (r: Option<char>)
        requires
            self.wf(),
        ensures
            r == (if self.position() < self.input@.len() {
                Some(self.input@[self.position()])
            } else {
                None::<char>
            }),
    {
        if self.rest.is_empty() {
            None
        } else {
            Some(self.rest.get_char(0))
        }
    }

    /// Moves the cursor past the character `c` that it stands at.
    fn skip_char(&mut self, c: char)
        requires
            old(self).wf(),
            old(self).position() < old(self).input@.len(),
            old(self).input@[old(self).position()] == c,
        ensures
            final(self).wf(),
            final(self).input == old(self).input,
            final(self).delimiter == old(self).delimiter,
            final(self).phase == old(self).phase,
            final(self).position() == old(self).position() + 1,
    {
        proof {
            lemma_encode_one(self.rest@);
        }
        self.rest = split_after(self.rest, Ghost(1), utf8_width(c)).1;
        proof {
            assert(self.rest@ =~= self.input@.subrange(self.position(), self.input@.len() as int));
        }
    }

    /// The number of bytes from the cursor, which stands at the first
    /// character of a field, to the end of that field: to the closing quote
    /// of a quoted field, else to the next delimiter or newline; to the end of
    /// the input where there is none.
    fn chars_until_end_of_field(&self, quoted: bool) -> (r: usize)
        requires
            self.wf(),
            self.position() < self.input@.len(),
        ensures
            r == encode_utf8(self.rest@.subrange(
                0,
                (if quoted {
                    quote_end(self.input@, self.position() + 1)
                } else {
                    plain_end(self.input@, self.delimiter, self.position() + 1)
                }) - self.position(),
            )).len(),
    {
        let ghost s = self.input@;
        let ghost pos = self.position();
        let ghost rs = self.rest@;
        let first = self.rest.get_char(0);
        let mut length: usize = utf8_width(first);
        proof {
            lemma_encode_one(rs);
        }
        let total = self.rest.as_bytes().len();
        let mut cursor = split_after(self.rest, Ghost(1), length).1;
        let ghost mut i: int = 1;
        loop
            invariant_except_break
                1 <= i <= rs.len(),
                0 <= pos < s.len(),
                rs.len() == s.len() - pos,
                cursor@ == rs.subrange(i, rs.len() as int),
                length == encode_utf8(rs.subrange(0, i)).len(),
                total == encode_utf8(rs).len(),
                rs == s.subrange(pos, s.len() as int),
                quoted ==> quote_end(s, pos + 1) == quote_end(s, pos + i),
                !quoted ==> plain_end(s, self.delimiter, pos + 1) == plain_end(
                    s,
                    self.delimiter,
                    pos + i,
                ),
            ensures
                length == encode_utf8(rs.subrange(
                    0,
                    (if quoted {
                        quote_end(s, pos + 1)
                    } else {
                        plain_end(s, self.delimiter, pos + 1)
                    }) - pos,
                )).len(),
            decreases rs.len() - i,
        {
            if cursor.is_empty() {
                proof {
                    assert(pos + i == s.len());
                }
                break;
            }
            let c = cursor.get_char(0);
            proof {
                assert(cursor@.len() == rs.len() - i);
                assert(c == rs[i]);
                assert(c == s[pos + i]);
            }
            if quoted {
                if c == '"' {
                    break;
                }
            } else if c == self.delimiter || c == '\n' {
                break;
            }
            let w = utf8_width(c);
            proof {
                lemma_encode_extend(rs, i);
                lemma_encode_one(cursor@);
            }
            let next = split_after(cursor, Ghost(1), w).1;
            length = length + w;
            cursor = next;
            proof {
                i = i + 1;
                assert(cursor@ =~= rs.subrange(i, rs.len() as int));
            }
        }
        length
    }
}

} // verus!
