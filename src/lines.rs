//! The quick line-by-line reading of a comma-separated text: the text is
//! trimmed, cut into lines, each line cut at every comma, and the double
//! quotes at both ends of each piece dropped. Quotes do not protect commas
//! or newlines here; `Csv::parse` is the reading that honours them.
use vstd::prelude::*;
use vstd::utf8::encode_utf8;
use crate::parser::{texts, Csv, CsvLine};
use crate::text::{
    lemma_encode_extend, lemma_encode_one, lemma_encode_prefix, split_after, utf8_width,
};

verus! {

/// Characters with the Unicode White_Space property.
pub open spec fn white_space(c: char) -> bool {
    let u = c as u32;
    (0x9 <= u <= 0xd) || u == 0x20 || u == 0x85 || u == 0xa0 || u == 0x1680 || (0x2000 <= u
        <= 0x200a) || u == 0x2028 || u == 0x2029 || u == 0x202f || u == 0x205f || u == 0x3000
}

/// The characters that trimming removes: double quotes, or white space.
pub open spec fn trimmable(c: char, quotes: bool) -> bool {
    if quotes {
        c == '"'
    } else {
        white_space(c)
    }
}

/// The first index at or after `i` whose character is not trimmable, or the end.
pub open spec fn trim_front(s: Seq<char>, quotes: bool, i: int) -> int
    decreases s.len() - i,
{
    if i >= s.len() {
        s.len() as int
    } else if !trimmable(s[i], quotes) {
        i
    } else {
        trim_front(s, quotes, i + 1)
    }
}

/// The largest index at or below `j` right after a character that is not
/// trimmable, or 0.
pub open spec fn trim_back(s: Seq<char>, quotes: bool, j: int) -> int
    decreases j,
{
    if j <= 0 {
        0
    } else if !trimmable(s[j - 1], quotes) {
        j
    } else {
        trim_back(s, quotes, j - 1)
    }
}

/// `s` without the trimmable characters at either end.
pub open spec fn trimmed(s: Seq<char>, quotes: bool) -> Seq<char> {
    let a = trim_front(s, quotes, 0);
    let b = trim_back(s, quotes, s.len() as int);
    if a < b {
        s.subrange(a, b)
    } else {
        Seq::empty()
    }
}

/// The pieces of `s` between the occurrences of `sep`: one more than there
/// are occurrences.
pub open spec fn split(s: Seq<char>, sep: char) -> Seq<Seq<char>>
    decreases s.len(),
{
    if s.len() == 0 {
        seq![Seq::empty()]
    } else {
        let r = split(s.drop_last(), sep);
        if s.last() == sep {
            r.push(Seq::empty())
        } else {
            r.update(r.len() - 1, r.last().push(s.last()))
        }
    }
}

/// A line that ended in a carriage return and newline, without the carriage return.
pub open spec fn without_cr(l: Seq<char>) -> Seq<char> {
    if l.len() > 0 && l.last() == '\r' {
        l.drop_last()
    } else {
        l
    }
}

/// The lines of `s`: the pieces between newlines, each without a carriage
/// return before its newline; the piece after a final newline, being empty,
/// is not a line.
pub open spec fn lines_of(s: Seq<char>) -> Seq<Seq<char>> {
    let p = split(s, '\n');
    p.drop_last().map_values(|l: Seq<char>| without_cr(l)) + if p.last().len() > 0 {
        seq![p.last()]
    } else {
        Seq::empty()
    }
}

/// The fields of one line: its comma-separated pieces without surrounding quotes.
pub open spec fn line_fields(l: Seq<char>) -> Seq<Seq<char>> {
    split(l, ',').map_values(|f: Seq<char>| trimmed(f, true))
}

/// The rows of the quick reading of `s`.
pub open spec fn quick_rows(s: Seq<char>) -> Seq<Seq<Seq<char>>> {
    lines_of(trimmed(s, false)).map_values(|l: Seq<char>| line_fields(l))
}

proof fn lemma_trim_front_bound(s: Seq<char>, quotes: bool, i: int)
    requires
        0 <= i <= s.len(),
    ensures
        i <= trim_front(s, quotes, i) <= s.len(),
    decreases s.len() - i,
{
    if i < s.len() {
        lemma_trim_front_bound(s, quotes, i + 1);
    }
}

proof fn lemma_trim_back_bound(s: Seq<char>, quotes: bool, j: int)
    ensures
        trim_back(s, quotes, j) <= if j <= 0 { 0 } else { j },
    decreases j,
{
    if j > 0 {
        lemma_trim_back_bound(s, quotes, j - 1);
    }
}

pub proof fn lemma_split_len(s: Seq<char>, sep: char)
    ensures
        split(s, sep).len() >= 1,
    decreases s.len(),
{
    if s.len() > 0 {
        lemma_split_len(s.drop_last(), sep);
    }
}

fn is_white_space(c: char) -> (r: bool)
    ensures
        r == white_space(c),
{
    let u = c as u32;
    (0x9 <= u && u <= 0xd) || u == 0x20 || u == 0x85 || u == 0xa0 || u == 0x1680 || (0x2000 <= u
        && u <= 0x200a) || u == 0x2028 || u == 0x2029 || u == 0x202f || u == 0x205f || u == 0x3000
}

fn is_trimmable(c: char, quotes: bool) -> (r: bool)
    ensures
        r == trimmable(c, quotes),
{
    if quotes {
        c == '"'
    } else {
        is_white_space(c)
    }
}

/// `s` without double quotes (`quotes`) or white space at either end.
fn trim_text<'a>(s: &'a str, quotes: bool) -> (r: &'a str)
    ensures
        r@ == trimmed(s@, quotes),
{
    let ghost cs = s@;
    let total = s.as_bytes().len();
    let mut cursor = s;
    let ghost mut i: int = 0;
    let mut n: usize = 0;
    let mut found = false;
    let ghost mut a: int = 0;
    let mut a_bytes: usize = 0;
    let ghost mut b: int = 0;
    let mut b_bytes: usize = 0;
    proof {
        assert(cs.subrange(0, 0) =~= Seq::<char>::empty());
        assert(cs.subrange(0, cs.len() as int) =~= cs);
        lemma_trim_front_bound(cs, quotes, 0);
    }
    while !cursor.is_empty()
        invariant
            0 <= i <= cs.len(),
            cursor@ == cs.subrange(i, cs.len() as int),
            total == encode_utf8(cs).len(),
            n == encode_utf8(cs.subrange(0, i)).len(),
            b == trim_back(cs, quotes, i),
            0 <= b <= i,
            b_bytes == encode_utf8(cs.subrange(0, b)).len(),
            found == (trim_front(cs, quotes, 0) < i),
            found ==> a == trim_front(cs, quotes, 0) && a < b && a_bytes == encode_utf8(
                cs.subrange(0, a),
            ).len(),
            !found ==> trim_front(cs, quotes, 0) == trim_front(cs, quotes, i),
        decreases cs.len() - i,
    {
        let c = cursor.get_char(0);
        let w = utf8_width(c);
        proof {
            assert(cursor@.len() == cs.len() - i);
            assert(c == cs[i]);
            lemma_encode_extend(cs, i);
            lemma_encode_one(cursor@);
            lemma_trim_front_bound(cs, quotes, i + 1);
        }
        if !is_trimmable(c, quotes) {
            if !found {
                found = true;
                a_bytes = n;
                proof {
                    a = i;
                }
            }
            b_bytes = n + w;
            proof {
                b = i + 1;
            }
        }
        n = n + w;
        cursor = split_after(cursor, Ghost(1), w).1;
        proof {
            i = i + 1;
            assert(cursor@ =~= cs.subrange(i, cs.len() as int));
        }
    }
    if !found {
        proof {
            assert(trim_front(cs, quotes, 0) == cs.len());
            lemma_trim_back_bound(cs, quotes, cs.len() as int);
        }
        let r = split_after(s, Ghost(0), 0).0;
        assert(r@ =~= trimmed(cs, quotes));
        r
    } else {
        proof {
            lemma_encode_prefix(cs.subrange(0, b), a);
            assert(cs.subrange(0, b).subrange(0, a) =~= cs.subrange(0, a));
            let from_a = cs.subrange(a, cs.len() as int);
            assert(from_a.subrange(0, b - a) =~= cs.subrange(0, b).subrange(a, b));
        }
        let from_a = split_after(s, Ghost(a), a_bytes).1;
        let r = split_after(from_a, Ghost(b - a), b_bytes - a_bytes).0;
        assert(r@ =~= trimmed(cs, quotes));
        r
    }
}

/// The pieces of `s` between the occurrences of `sep`.
fn split_text(s: &str, sep: char) -> (r: Vec<String>)
    ensures
        texts(r@) == split(s@, sep),
{
    let ghost cs = s@;
    let mut pieces: Vec<String> = Vec::new();
    let mut tail = s;
    let mut cursor = s;
    let ghost mut start: int = 0;
    let ghost mut i: int = 0;
    let mut n: usize = 0;
    let total = s.as_bytes().len();
    proof {
        assert(texts(pieces@) =~= Seq::<Seq<char>>::empty());
        assert(cs.subrange(0, 0) =~= Seq::<char>::empty());
        assert(cs.subrange(0, cs.len() as int) =~= cs);
        assert(texts(pieces@).push(cs.subrange(0, 0)) =~= split(cs.subrange(0, 0), sep));
    }
    while !cursor.is_empty()
        invariant
            0 <= start <= i <= cs.len(),
            tail@ == cs.subrange(start, cs.len() as int),
            cursor@ == cs.subrange(i, cs.len() as int),
            total == encode_utf8(cs).len(),
            n == encode_utf8(tail@.subrange(0, i - start)).len(),
            encode_utf8(tail@.subrange(0, i - start)).len() <= encode_utf8(cs.subrange(0, i)).len(),
            texts(pieces@).push(cs.subrange(start, i)) == split(cs.subrange(0, i), sep),
        decreases cs.len() - i,
    {
        let ghost before = texts(pieces@);
        let c = cursor.get_char(0);
        let w = utf8_width(c);
        proof {
            assert(cursor@.len() == cs.len() - i);
            assert(c == cs[i]);
            lemma_split_len(cs.subrange(0, i), sep);
            assert(cs.subrange(0, i + 1).drop_last() =~= cs.subrange(0, i));
            assert(cs.subrange(0, i + 1).last() == c);
            assert(tail@.subrange(0, i - start + 1) =~= cs.subrange(start, i + 1));
            assert(tail@[i - start] == c);
            lemma_encode_extend(tail@, i - start);
            lemma_encode_extend(cs, i);
            lemma_encode_one(cursor@);
        }
        cursor = split_after(cursor, Ghost(1), w).1;
        if c == sep {
            let (piece, _) = split_after(tail, Ghost(i - start), n);
            pieces.push(String::from_str(piece));
            proof {
                assert(tail@.subrange(0, i - start) =~= cs.subrange(start, i));
                assert(texts(pieces@) =~= before.push(cs.subrange(start, i)));
            }
            tail = cursor;
            n = 0;
            proof {
                start = i + 1;
                assert(cs.subrange(start, i + 1) =~= Seq::<char>::empty());
                assert(tail@.subrange(0, 0) =~= Seq::<char>::empty());
            }
        } else {
            n = n + w;
            proof {
                assert(cs.subrange(start, i + 1) =~= cs.subrange(start, i).push(c));
                assert(before.push(cs.subrange(start, i + 1)) =~= before.push(
                    cs.subrange(start, i),
                ).update(before.len() as int, cs.subrange(start, i).push(c)));
            }
        }
        proof {
            i = i + 1;
            assert(cursor@ =~= cs.subrange(i, cs.len() as int));
        }
    }
    let ghost before = texts(pieces@);
    pieces.push(String::from_str(tail));
    proof {
        assert(texts(pieces@) =~= before.push(cs.subrange(start, cs.len() as int)));
    }
    pieces
}

/// `l` without a carriage return at its end.
fn drop_cr(l: &str) -> (r: &str)
    ensures
        r@ == without_cr(l@),
{
    let len = l.unicode_len();
    if len > 0 && l.get_char(len - 1) == '\r' {
        let r = l.substring_char(0, len - 1);
        assert(r@ =~= l@.drop_last());
        r
    } else {
        l
    }
}

/// The lines of `s`, as `str::lines` reads them.
fn text_lines(s: &str) -> (r: Vec<String>)
    ensures
        texts(r@) == lines_of(s@),
{
    let pieces = split_text(s, '\n');
    let ghost p = split(s@, '\n');
    proof {
        lemma_split_len(s@, '\n');
    }
    let n = pieces.len() - 1;
    let mut lines: Vec<String> = Vec::new();
    let mut i: usize = 0;
    while i < n
        invariant
            n + 1 == pieces@.len(),
            texts(pieces@) == p,
            i <= n,
            lines@.len() == i,
            forall|k: int| 0 <= k < i ==> lines@[k]@ == without_cr(p[k]),
        decreases n - i,
    {
        assert(pieces@[i as int]@ == p[i as int]);
        lines.push(String::from_str(drop_cr(pieces[i].as_str())));
        i = i + 1;
    }
    assert(pieces@[n as int]@ == p.last());
    if !pieces[n].as_str().is_empty() {
        lines.push(String::from_str(pieces[n].as_str()));
    }
    assert(texts(lines@) =~= lines_of(s@));
    lines
}

impl Csv {
    /// Reads one line: its comma-separated pieces, each without the double
    /// quotes at its ends.
    pub fn line_to_vec(line: &str) -> (r: CsvLine)
        ensures
            r@ == line_fields(line@),
    {
        let pieces = split_text(line, ',');
        let ghost p = split(line@, ',');
        let mut values: Vec<String> = Vec::new();
        let mut i: usize = 0;
        while i < pieces.len()
            invariant
                texts(pieces@) == p,
                i <= pieces@.len(),
                values@.len() == i,
                forall|k: int| 0 <= k < i ==> values@[k]@ == trimmed(p[k], true),
            decreases pieces@.len() - i,
        {
            assert(pieces@[i as int]@ == p[i as int]);
            values.push(String::from_str(trim_text(pieces[i].as_str(), true)));
            i = i + 1;
        }
        let r = CsvLine { values };
        assert(r@ =~= line_fields(line@));
        r
    }

    /// Reads a comma-separated text line by line: the text without white
    /// space at its ends, cut into lines, each read by `line_to_vec`.
    pub fn from(input: &str) -> (r: Csv)
        ensures
            r@ == quick_rows(input@),
    {
        let text = trim_text(input, false);
        let ls = text_lines(text);
        let ghost l = lines_of(text@);
        let mut lines: Vec<CsvLine> = Vec::new();
        let mut i: usize = 0;
        while i < ls.len()
            invariant
                texts(ls@) == l,
                i <= ls@.len(),
                lines@.len() == i,
                forall|k: int| 0 <= k < i ==> lines@[k]@ == line_fields(l[k]),
            decreases ls@.len() - i,
        {
            assert(ls@[i as int]@ == l[i as int]);
            lines.push(Csv::line_to_vec(ls[i].as_str()));
            i = i + 1;
        }
        let r = Csv { lines };
        assert(r@ =~= quick_rows(input@));
        r
    }
}

} // verus!
