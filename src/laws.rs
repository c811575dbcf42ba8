//! Properties of the token stream and of documents, stated over the
//! specifications of `tokenizer` and `parser` and proved from them.
use vstd::prelude::*;
use crate::parser::{document, lemma_line_from_shorter, line_from, rows_of};
use crate::tokenizer::{
    lemma_plain_end_bounds, lemma_quote_end_bounds, lemma_step_progress, phase_weight, plain_end,
    quote_end, step, tokens, tokens_from, Phase, TokenView,
};

verus! {

/// The number of delimiters in the row that starts `ts`, up to its first newline.
pub open spec fn delimiters_in_line(ts: Seq<TokenView>) -> nat
    decreases ts.len(),
{
    if ts.len() == 0 {
        0
    } else {
        match ts[0] {
            TokenView::Delimiter => 1 + delimiters_in_line(ts.drop_first()),
            TokenView::Newline => 0,
            TokenView::Field(_) => delimiters_in_line(ts.drop_first()),
        }
    }
}

/// Whether two fields follow each other with no separator between them, as
/// happens when text follows the closing quote of a quoted field.
pub open spec fn fields_adjacent(ts: Seq<TokenView>) -> bool {
    exists|i: int| 0 <= i && i + 1 < ts.len() && (#[trigger] ts[i]) is Field && ts[i + 1] is Field
}

proof fn lemma_not_adjacent_tail(ts: Seq<TokenView>)
    requires
        ts.len() > 0,
        !fields_adjacent(ts),
    ensures
        !fields_adjacent(ts.drop_first()),
        ts[0] is Field && ts.len() > 1 ==> !(ts[1] is Field),
{
    let tail = ts.drop_first();
    if fields_adjacent(tail) {
        let i = choose|i: int|
            0 <= i && i + 1 < tail.len() && (#[trigger] tail[i]) is Field && tail[i + 1] is Field;
        assert(ts[i + 1] == tail[i]);
        assert(ts[i + 2] == tail[i + 1]);
    }
    if ts.len() > 1 && ts[0] is Field && ts[1] is Field {
        assert(ts[0] is Field);
    }
}

proof fn lemma_delimiter_count_from(s: Seq<char>, d: char, pos: int, phase: Phase)
    requires
        0 <= pos <= s.len(),
        !fields_adjacent(tokens_from(s, d, pos, phase)),
        phase == Phase::AfterField && tokens_from(s, d, pos, phase).len() > 0 ==> !(tokens_from(
            s,
            d,
            pos,
            phase,
        )[0] is Field),
    ensures
        ({
            let ts = tokens_from(s, d, pos, phase);
            let f = line_from(ts).0.len();
            let k = delimiters_in_line(ts);
            &&& phase == Phase::RowStart ==> (f == 0 && k == 0) || f == k + 1
            &&& phase == Phase::AfterDelimiter ==> f == k + 1
            &&& phase == Phase::AfterField ==> f == k
        }),
    decreases 2 * (s.len() - pos) + phase_weight(phase),
{
    let ts = tokens_from(s, d, pos, phase);
    if let Some((t, p, ph)) = step(s, d, pos, phase) {
        lemma_step_progress(s, d, pos, phase);
        let tail = tokens_from(s, d, p, ph);
        assert(ts.drop_first() =~= tail);
        assert(ts[0] == t);
        lemma_not_adjacent_tail(ts);
        if tail.len() > 0 {
            assert(tail[0] == ts[1]);
        }
        lemma_delimiter_count_from(s, d, p, ph);
    }
}

/// Within a row, the delimiters are one fewer than the fields, and a row
/// without fields holds no delimiter. A row begins at the start of the input
/// or after a newline, in the tokenizer's row-start phase, at any `pos`. This
/// holds wherever no field directly follows another, which only text right
/// after a closing quote can cause.
pub proof fn lemma_delimiters_per_row(s: Seq<char>, d: char, pos: int)
    requires
        0 <= pos <= s.len(),
        !fields_adjacent(tokens_from(s, d, pos, Phase::RowStart)),
    ensures
        ({
            let ts = tokens_from(s, d, pos, Phase::RowStart);
            let f = line_from(ts).0.len();
            let k = delimiters_in_line(ts);
            (f == 0 && k == 0) || f == k + 1
        }),
{
    lemma_delimiter_count_from(s, d, pos, Phase::RowStart);
}

proof fn lemma_quote_end_at(s: Seq<char>, i: int, close: int)
    requires
        0 <= i <= close < s.len(),
        s[close] == '"',
        forall|k: int| i <= k < close ==> s[k] != '"',
    ensures
        quote_end(s, i) == close,
    decreases close - i,
{
    if i < close {
        lemma_quote_end_at(s, i + 1, close);
    }
}

/// A quoted field is one token whose text is everything between its quotes,
/// delimiters and newlines included; the next token starts after the
/// closing quote.
pub proof fn lemma_quoted_field_verbatim(s: Seq<char>, d: char, pos: int, phase: Phase, close: int)
    requires
        0 <= pos < close < s.len(),
        d != '"',
        s[pos] == '"',
        s[close] == '"',
        forall|k: int| pos < k < close ==> s[k] != '"',
    ensures
        tokens_from(s, d, pos, phase).len() > 0,
        tokens_from(s, d, pos, phase)[0] == TokenView::Field(s.subrange(pos + 1, close)),
        tokens_from(s, d, pos, phase).drop_first() == tokens_from(
            s,
            d,
            close + 1,
            Phase::AfterField,
        ),
{
    lemma_quote_end_at(s, pos + 1, close);
    lemma_step_progress(s, d, pos, phase);
    assert(tokens_from(s, d, pos, phase).drop_first() =~= tokens_from(
        s,
        d,
        close + 1,
        Phase::AfterField,
    ));
}

/// The fields written out with `d` between each two.
pub open spec fn join(fields: Seq<Seq<char>>, d: char) -> Seq<char>
    decreases fields.len(),
{
    if fields.len() == 0 {
        Seq::empty()
    } else if fields.len() == 1 {
        fields[0]
    } else {
        fields[0] + seq![d] + join(fields.drop_first(), d)
    }
}

/// A field that holds no delimiter, newline or double quote.
pub open spec fn plain_field(f: Seq<char>, d: char) -> bool {
    forall|k: int| 0 <= k < f.len() ==> f[k] != d && f[k] != '\n' && f[k] != '"'
}

/// The tokens of a row of these fields: each field, with a delimiter
/// between each two.
pub open spec fn field_tokens(fields: Seq<Seq<char>>) -> Seq<TokenView>
    decreases fields.len(),
{
    if fields.len() == 0 {
        Seq::empty()
    } else if fields.len() == 1 {
        seq![TokenView::Field(fields[0])]
    } else {
        seq![TokenView::Field(fields[0]), TokenView::Delimiter] + field_tokens(fields.drop_first())
    }
}

proof fn lemma_plain_end_at(s: Seq<char>, d: char, i: int, j: int)
    requires
        0 <= i <= j <= s.len(),
        forall|k: int| i <= k < j ==> s[k] != d && s[k] != '\n',
        j == s.len() || s[j] == d || s[j] == '\n',
    ensures
        plain_end(s, d, i) == j,
    decreases j - i,
{
    if i < j {
        lemma_plain_end_at(s, d, i + 1, j);
    }
}

proof fn lemma_row_tokens(p: Seq<char>, fields: Seq<Seq<char>>, d: char, phase: Phase)
    requires
        fields.len() >= 1,
        forall|i: int| 0 <= i < fields.len() ==> plain_field(#[trigger] fields[i], d),
        d != '\n',
        phase == Phase::RowStart || phase == Phase::AfterDelimiter,
        phase == Phase::AfterDelimiter || join(fields, d).len() > 0,
    ensures
        tokens_from(p + join(fields, d), d, p.len() as int, phase) == field_tokens(fields),
    decreases fields.len(),
{
    let s = p + join(fields, d);
    let pos = p.len() as int;
    let f0 = fields[0];
    assert(plain_field(f0, d));
    if fields.len() == 1 {
        assert(s =~= p + f0);
        if f0.len() == 0 {
            assert(f0 =~= Seq::<char>::empty());
            lemma_step_progress(s, d, pos, phase);
            assert(tokens_from(s, d, pos, Phase::AfterField).len() == 0);
            assert(tokens_from(s, d, pos, phase) =~= field_tokens(fields));
        } else {
            assert(s[pos] == f0[0]);
            assert forall|k: int| pos + 1 <= k < s.len() implies s[k] != d && s[k] != '\n' by {
                assert(s[k] == f0[k - pos]);
            }
            lemma_plain_end_at(s, d, pos + 1, s.len() as int);
            assert(s.subrange(pos, s.len() as int) =~= f0);
            lemma_step_progress(s, d, pos, phase);
            assert(step(s, d, pos, phase) == Some(
                (TokenView::Field(f0), s.len() as int, Phase::AfterField),
            ));
            assert(tokens_from(s, d, s.len() as int, Phase::AfterField).len() == 0);
            assert(tokens_from(s, d, pos, phase) =~= field_tokens(fields));
        }
    } else {
        let rest = fields.drop_first();
        let longer = p + f0 + seq![d];
        assert(s =~= longer + join(rest, d));
        assert forall|i: int| 0 <= i < rest.len() implies plain_field(#[trigger] rest[i], d) by {
            assert(rest[i] == fields[i + 1]);
        }
        let e = pos + f0.len();
        assert(s[e] == d);
        lemma_row_tokens(longer, rest, d, Phase::AfterDelimiter);
        let after = tokens_from(s, d, e + 1, Phase::AfterDelimiter);
        assert(after == field_tokens(rest));
        if f0.len() == 0 {
            assert(f0 =~= Seq::<char>::empty());
            lemma_step_progress(s, d, pos, phase);
            lemma_step_progress(s, d, pos, Phase::AfterField);
            assert(tokens_from(s, d, e, Phase::AfterField) =~= seq![TokenView::Delimiter] + after);
            let expected = seq![TokenView::Field(f0)] + (seq![TokenView::Delimiter] + after);
            assert(tokens_from(s, d, pos, phase) =~= expected);
        } else {
            assert(s[pos] == f0[0]);
            assert forall|k: int| pos + 1 <= k < e implies s[k] != d && s[k] != '\n' by {
                assert(s[k] == f0[k - pos]);
            }
            lemma_plain_end_at(s, d, pos + 1, e);
            assert(s.subrange(pos, e) =~= f0);
            lemma_step_progress(s, d, pos, phase);
            assert(step(s, d, pos, phase) == Some((TokenView::Field(f0), e, Phase::AfterField)));
            assert(tokens_from(s, d, e, Phase::AfterField) =~= seq![TokenView::Delimiter] + after);
            let expected = seq![TokenView::Field(f0)] + (seq![TokenView::Delimiter] + after);
            assert(tokens_from(s, d, pos, phase) =~= expected);
        }
        assert(field_tokens(fields) =~= seq![TokenView::Field(f0)] + (seq![TokenView::Delimiter]
            + after));
    }
}

proof fn lemma_line_of_field_tokens(fields: Seq<Seq<char>>)
    ensures
        line_from(field_tokens(fields)) == (fields, Seq::<TokenView>::empty()),
    decreases fields.len(),
{
    let ts = field_tokens(fields);
    if fields.len() == 1 {
        assert(ts.drop_first() =~= Seq::<TokenView>::empty());
        assert(line_from(ts.drop_first()) == (
            Seq::<Seq<char>>::empty(),
            Seq::<TokenView>::empty(),
        ));
        assert(seq![fields[0]] + Seq::<Seq<char>>::empty() =~= fields);
    } else if fields.len() > 1 {
        let rest = fields.drop_first();
        lemma_line_of_field_tokens(rest);
        assert(ts.drop_first().drop_first() =~= field_tokens(rest));
        assert(line_from(ts.drop_first()) == line_from(field_tokens(rest)));
        assert(seq![fields[0]] + rest =~= fields);
    } else {
        assert(fields =~= Seq::<Seq<char>>::empty());
    }
}

/// A row of plain fields, at least one of them and not a single empty one,
/// written out with the delimiter, reads back as exactly those fields; so
/// writing out the row that was read gives back the text.
pub proof fn lemma_round_trip(fields: Seq<Seq<char>>, d: char)
    requires
        fields.len() >= 1,
        forall|i: int| 0 <= i < fields.len() ==> plain_field(#[trigger] fields[i], d),
        d != '\n',
        join(fields, d).len() > 0,
    ensures
        document(join(fields, d), d) == seq![fields],
        join(document(join(fields, d), d)[0], d) == join(fields, d),
{
    let text = join(fields, d);
    assert(Seq::<char>::empty() + text =~= text);
    lemma_row_tokens(Seq::empty(), fields, d, Phase::RowStart);
    let ts = tokens(text, d);
    lemma_line_of_field_tokens(fields);
    assert(rows_of(Seq::<TokenView>::empty()).len() == 0);
    assert(rows_of(ts) =~= seq![fields]);
}

/// Whether a newline token occurs in `ts`.
pub open spec fn has_newline(ts: Seq<TokenView>) -> bool
    decreases ts.len(),
{
    ts.len() > 0 && (ts[0] is Newline || has_newline(ts.drop_first()))
}

proof fn lemma_line_from_push(u: Seq<TokenView>, x: TokenView)
    ensures
        has_newline(u) ==> line_from(u.push(x)) == (line_from(u).0, line_from(u).1.push(x)),
        !has_newline(u) ==> line_from(u).1.len() == 0 && line_from(u.push(x)) == (match x {
            TokenView::Field(f) => line_from(u).0.push(f),
            _ => line_from(u).0,
        }, Seq::<TokenView>::empty()),
    decreases u.len(),
{
    let w = u.push(x);
    if u.len() == 0 {
        assert(w.drop_first() =~= Seq::<TokenView>::empty());
        assert(line_from(w.drop_first()) == (Seq::<Seq<char>>::empty(), Seq::<TokenView>::empty()));
        if let TokenView::Field(f) = x {
            assert(seq![f] + Seq::<Seq<char>>::empty() =~= Seq::<Seq<char>>::empty().push(f));
        }
    } else {
        let tail = u.drop_first();
        assert(w.drop_first() =~= tail.push(x));
        assert(w[0] == u[0]);
        lemma_line_from_push(tail, x);
        match u[0] {
            TokenView::Field(f) => {
                let (a, r) = line_from(tail);
                if let TokenView::Field(g) = x {
                    assert(seq![f] + a.push(g) =~= (seq![f] + a).push(g));
                }
            },
            TokenView::Delimiter => {},
            TokenView::Newline => {
                assert(tail.push(x) =~= u.drop_first().push(x));
            },
        }
    }
}

proof fn lemma_rows_push_newline(ts: Seq<TokenView>)
    ensures
        rows_of(ts.push(TokenView::Newline)) == rows_of(ts),
    decreases ts.len(),
{
    let w = ts.push(TokenView::Newline);
    lemma_line_from_push(ts, TokenView::Newline);
    lemma_line_from_shorter(w);
    assert(rows_of(Seq::<TokenView>::empty()) == Seq::<Seq<Seq<char>>>::empty());
    if ts.len() == 0 {
        assert(line_from(w).0.len() == 0);
        assert(line_from(w).1.len() == 0);
        assert(rows_of(w) == rows_of(line_from(w).1));
    } else {
        lemma_line_from_shorter(ts);
        if has_newline(ts) {
            lemma_rows_push_newline(line_from(ts).1);
        }
        assert(rows_of(line_from(w).1) == rows_of(line_from(ts).1));
    }
}

proof fn lemma_rows_last_field(u: Seq<TokenView>, f: Seq<char>, g: Seq<char>)
    ensures
        rows_of(u.push(TokenView::Field(g))).len() == rows_of(u.push(TokenView::Field(f))).len(),
    decreases u.len(),
{
    let wf = u.push(TokenView::Field(f));
    let wg = u.push(TokenView::Field(g));
    lemma_line_from_push(u, TokenView::Field(f));
    lemma_line_from_push(u, TokenView::Field(g));
    lemma_line_from_shorter(wf);
    lemma_line_from_shorter(wg);
    if has_newline(u) {
        lemma_line_from_shorter(u);
        lemma_rows_last_field(line_from(u).1, f, g);
    } else {
        assert(rows_of(Seq::<TokenView>::empty()).len() == 0);
    }
}

proof fn lemma_plain_end_push(s: Seq<char>, d: char, i: int)
    requires
        0 <= i <= s.len(),
    ensures
        plain_end(s.push('\n'), d, i) == plain_end(s, d, i),
    decreases s.len() - i,
{
    let t = s.push('\n');
    if i < s.len() {
        assert(t[i] == s[i]);
        lemma_plain_end_push(s, d, i + 1);
    } else {
        assert(t[i] == '\n');
    }
}

proof fn lemma_quote_end_push(s: Seq<char>, i: int)
    requires
        0 <= i <= s.len(),
    ensures
        quote_end(s, i) < s.len() ==> quote_end(s.push('\n'), i) == quote_end(s, i),
        quote_end(s, i) == s.len() ==> quote_end(s.push('\n'), i) == s.len() + 1,
    decreases s.len() - i,
{
    let t = s.push('\n');
    lemma_quote_end_bounds(s, i);
    if i < s.len() {
        assert(t[i] == s[i]);
        lemma_quote_end_push(s, i + 1);
    } else {
        assert(t[i] == '\n');
        assert(quote_end(t, i + 1) == t.len());
    }
}

/// From any state, the tokens of the text with a newline appended are those
/// of the text followed by a newline, or, where the text ends inside a
/// quoted field, the same tokens with that last field taking the newline.
#[verifier::rlimit(40)]
proof fn lemma_tokens_push_newline(s: Seq<char>, d: char, pos: int, phase: Phase)
    requires
        0 <= pos <= s.len(),
    ensures
        ({
            let ts = tokens_from(s, d, pos, phase);
            let ts2 = tokens_from(s.push('\n'), d, pos, phase);
            ts2 == ts.push(TokenView::Newline) || (ts.len() > 0 && ts.last() is Field && ts2
                == ts.drop_last().push(TokenView::Field(ts.last()->Field_0.push('\n'))))
        }),
    decreases 2 * (s.len() - pos) + phase_weight(phase),
{
    let t = s.push('\n');
    let ts = tokens_from(s, d, pos, phase);
    let ts2 = tokens_from(t, d, pos, phase);
    if pos == s.len() {
        assert(t[pos] == '\n');
        lemma_step_progress(t, d, pos, phase);
        if phase == Phase::AfterDelimiter {
            lemma_step_progress(t, d, pos, Phase::AfterField);
            assert(tokens_from(s, d, pos, Phase::AfterField).len() == 0);
            assert(tokens_from(t, d, pos + 1, Phase::RowStart).len() == 0);
            assert(tokens_from(t, d, pos, Phase::AfterField) =~= seq![TokenView::Newline]);
            assert(ts =~= seq![TokenView::Field(Seq::empty())]);
            assert(ts2 =~= seq![TokenView::Field(Seq::empty())] + seq![TokenView::Newline]);
            assert(ts2 =~= ts.push(TokenView::Newline));
        } else {
            assert(tokens_from(t, d, pos + 1, Phase::RowStart).len() == 0);
            assert(ts2 =~= ts.push(TokenView::Newline));
        }
    } else {
        assert(t[pos] == s[pos]);
        lemma_step_progress(s, d, pos, phase);
        lemma_step_progress(t, d, pos, phase);
        let c = s[pos];
        if c != '\n' && c != d && c == '"' {
            lemma_quote_end_push(s, pos + 1);
            lemma_quote_end_bounds(s, pos + 1);
        } else if c != '\n' && c != d {
            lemma_plain_end_push(s, d, pos + 1);
            lemma_plain_end_bounds(s, d, pos + 1);
        }
        let (tok, p, ph) = step(s, d, pos, phase)->0;
        let (tok_t, pos_t, ph_t) = step(t, d, pos, phase)->0;
        if c != '\n' && c != d && c == '"' && quote_end(s, pos + 1) == s.len() {
            let e = s.len() as int;
            assert(t.subrange(pos + 1, e + 1) =~= s.subrange(pos + 1, e).push('\n'));
            assert(tokens_from(s, d, e, Phase::AfterField).len() == 0);
            assert(tokens_from(t, d, e + 1, Phase::AfterField).len() == 0);
            assert(ts =~= seq![tok]);
            assert(ts2 =~= ts.drop_last().push(TokenView::Field(ts.last()->Field_0.push('\n'))));
        } else {
            if tok is Field {
                assert(tok_t == tok) by {
                    if c != '\n' && c != d && c == '"' {
                        let e = quote_end(s, pos + 1);
                        assert(t.subrange(pos + 1, e) =~= s.subrange(pos + 1, e));
                    } else if c != '\n' && c != d {
                        let e = plain_end(s, d, pos + 1);
                        assert(t.subrange(pos, e) =~= s.subrange(pos, e));
                    }
                }
            }
            assert(tok_t == tok && pos_t == p && ph_t == ph);
            lemma_tokens_push_newline(s, d, p, ph);
            let rest = tokens_from(s, d, p, ph);
            let rest_t = tokens_from(t, d, p, ph);
            assert(ts =~= seq![tok] + rest);
            assert(ts2 =~= seq![tok] + rest_t);
            if rest_t == rest.push(TokenView::Newline) {
                assert(ts2 =~= ts.push(TokenView::Newline));
            } else {
                assert(ts.last() == rest.last());
                let extended = TokenView::Field(ts.last()->Field_0.push('\n'));
                assert(ts2 =~= ts.drop_last().push(extended));
            }
        }
    }
}

/// A newline at the end of the input adds no row: every row of a document
/// holds at least one field, and the text with a newline appended reads as
/// as many rows as the text itself.
pub proof fn lemma_trailing_newline(s: Seq<char>, d: char)
    ensures
        document(s.push('\n'), d).len() == document(s, d).len(),
        forall|i: int| 0 <= i < document(s, d).len() ==> (#[trigger] document(s, d)[i]).len() > 0,
{
    let ts = tokens(s, d);
    let ts2 = tokens(s.push('\n'), d);
    lemma_tokens_push_newline(s, d, 0, Phase::RowStart);
    if ts2 == ts.push(TokenView::Newline) {
        lemma_rows_push_newline(ts);
    } else {
        let f = ts.last()->Field_0;
        assert(ts =~= ts.drop_last().push(TokenView::Field(f)));
        lemma_rows_last_field(ts.drop_last(), f, f.push('\n'));
    }
    lemma_rows_nonempty(ts);
}

proof fn lemma_rows_nonempty(ts: Seq<TokenView>)
    ensures
        forall|i: int| 0 <= i < rows_of(ts).len() ==> (#[trigger] rows_of(ts)[i]).len() > 0,
    decreases ts.len(),
{
    if ts.len() > 0 {
        let (fields, rest) = line_from(ts);
        lemma_line_from_shorter(ts);
        lemma_rows_nonempty(rest);
        if fields.len() > 0 {
            assert forall|i: int| 0 <= i < rows_of(ts).len() implies (#[trigger] rows_of(
                ts,
            )[i]).len() > 0 by {
                if i > 0 {
                    assert(rows_of(ts)[i] == rows_of(rest)[i - 1]);
                }
            }
        }
    }
}

/// Empty input has no tokens and reads as a document of no rows.
pub proof fn lemma_empty_input(d: char)
    ensures
        tokens(Seq::empty(), d).len() == 0,
        document(Seq::empty(), d).len() == 0,
{
}

} // verus!
