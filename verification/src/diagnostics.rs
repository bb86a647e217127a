//! Where the lexer's errors stand in the text, as lines and columns for an
//! editor, with the message for each.
use ropey::Rope;
use vstd::prelude::*;

use crate::lexer::{byte_pos, lemma_lex_within, lex, lexer, spanned_token_views};
use crate::text::{cat, decimal, owned, usize_to_string};
use crate::tokens::{
    error_tokens, error_tokens_spec, AbsoluteIndent, ErrorToken, GTokenV, Span, Spanned, Token,
};

verus! {

#[verifier::external_type_specification]
#[verifier::external_body]
pub struct ExRope(Rope);

/// The characters a rope holds, in order.
pub uninterp spec fn rope_chars(r: Rope) -> Seq<char>;

/// The characters that end a line: LF, CR, VT, FF, NEL, LINE SEPARATOR and
/// PARAGRAPH SEPARATOR.
pub open spec fn is_line_break(c: char) -> bool {
    c == '\n' || c == '\r' || c == '\u{0B}' || c == '\u{0C}' || c == '\u{85}' || c == '\u{2028}'
        || c == '\u{2029}'
}

/// A line ends with character `i`: a line break, but not a CR that an LF
/// follows (the pair ends the line at the LF).
pub open spec fn ends_line(cs: Seq<char>, i: int) -> bool {
    is_line_break(cs[i]) && !(cs[i] == '\r' && i + 1 < cs.len() && cs[i + 1] == '\n')
}

/// The number of lines that end before character `k`: the line of `k`.
pub open spec fn line_breaks_before(cs: Seq<char>, k: int) -> nat
    decreases k,
{
    if k <= 0 {
        0
    } else {
        line_breaks_before(cs, k - 1) + if ends_line(cs, k - 1) {
            1nat
        } else {
            0nat
        }
    }
}

/// The number of the first `n` characters of `cs` that end at or before
/// byte `b`.
pub open spec fn chars_ending_by(cs: Seq<char>, b: nat, n: int) -> nat
    decreases n,
{
    if n <= 0 {
        0
    } else {
        chars_ending_by(cs, b, n - 1) + if byte_pos(cs, n) <= b {
            1nat
        } else {
            0nat
        }
    }
}

/// The index of the character that byte `b` belongs to; the number of
/// characters for the byte just past the end.
pub open spec fn char_of_byte(cs: Seq<char>, b: nat) -> nat {
    chars_ending_by(cs, b, cs.len() as int)
}

/// The number of the first `n` positions whose line comes before line `l`.
pub open spec fn positions_before_line(cs: Seq<char>, l: nat, n: int) -> nat
    decreases n,
{
    if n <= 0 {
        0
    } else {
        positions_before_line(cs, l, n - 1) + if line_breaks_before(cs, n - 1) < l {
            1nat
        } else {
            0nat
        }
    }
}

/// The index of the first character of line `l`.
pub open spec fn line_start(cs: Seq<char>, l: nat) -> nat {
    positions_before_line(cs, l, cs.len() + 1int)
}

/// The line of character `c` and its column, in characters from the start
/// of that line.
pub open spec fn char_pos(cs: Seq<char>, c: nat) -> (nat, nat) {
    let l = line_breaks_before(cs, c as int);
    (l, (c - line_start(cs, l)) as nat)
}

/// The line of byte `b` and its column counted in bytes from the start of
/// that line, as an editor counts with the UTF-8 position encoding.
pub open spec fn line_col(cs: Seq<char>, b: nat) -> (nat, nat) {
    let l = line_breaks_before(cs, char_of_byte(cs, b) as int);
    (l, (b - byte_pos(cs, line_start(cs, l) as int)) as nat)
}

/// What an editor is told of an invalid token.
pub open spec fn error_message(e: ErrorToken) -> Seq<char> {
    match e {
        ErrorToken::InvalidChar(c) => "invalid token: "@ + seq![c],
        ErrorToken::MisplacedTabs(n) => "tabs not at the beginning of the line count: "@ + decimal(
            n as nat,
        ) + " "@,
    }
}

/// The invalid tokens of a token list, with their regions, in order.
pub open spec fn lex_errors(ts: Seq<(GTokenV<AbsoluteIndent>, nat, nat)>) -> Seq<(ErrorToken, nat, nat)>
    decreases ts.len(),
{
    if ts.len() == 0 {
        Seq::empty()
    } else {
        let rest = lex_errors(ts.drop_last());
        match ts.last().0 {
            GTokenV::ErrorToken(e) => rest.push((e, ts.last().1, ts.last().2)),
            _ => rest,
        }
    }
}

/// A line and a column, both counted from zero; the column in characters.
#[derive(Debug, Clone, Copy, PartialEq, Eq)]
pub struct LineCol {
    pub line: usize,
    pub character: usize,
}

/// The positions where a region of the text starts and ends.
#[derive(Debug, Clone, Copy, PartialEq, Eq)]
pub struct LineColRange {
    pub start: LineCol,
    pub end: LineCol,
}

/// `Rope::from_str`: a rope that holds the characters of `text`.
#[verifier::external_body]
fn rope_from_str(text: &str) -> (r: Rope)
    ensures
        rope_chars(r) == text@,
{
    Rope::from_str(text)
}

/// `Rope::byte_to_char`: the index of the character that byte `b` belongs
/// to, or the number of characters for the byte just past the end. It
/// panics past that byte, which `requires` leaves out.
#[verifier::external_body]
fn rope_byte_to_char(r: &Rope, b: usize) -> (c: usize)
    requires
        b <= byte_pos(rope_chars(*r), rope_chars(*r).len() as int),
    ensures
        c <= rope_chars(*r).len(),
        byte_pos(rope_chars(*r), c as int) <= b,
        c < rope_chars(*r).len() ==> b < byte_pos(rope_chars(*r), c + 1),
{
    r.byte_to_char(b)
}

/// `Rope::char_to_line`: the number of line ends before character `c`, a
/// CR LF pair counting once (ropey's default line breaks). It panics past
/// the character just after the last, which `requires` leaves out.
#[verifier::external_body]
fn rope_char_to_line(r: &Rope, c: usize) -> (l: usize)
    requires
        c <= rope_chars(*r).len(),
    ensures
        l == line_breaks_before(rope_chars(*r), c as int),
{
    r.char_to_line(c)
}

/// `Rope::line_to_char`: the index of the first character of line `l`,
/// which follows the `l`-th line end; for the line just past the last, the
/// number of characters. It panics past that line, which `requires` leaves
/// out.
#[verifier::external_body]
fn rope_line_to_char(r: &Rope, l: usize) -> (c: usize)
    requires
        l <= line_breaks_before(rope_chars(*r), rope_chars(*r).len() as int) + 1,
    ensures
        l <= line_breaks_before(rope_chars(*r), rope_chars(*r).len() as int) ==> c <= rope_chars(
            *r,
        ).len() && line_breaks_before(rope_chars(*r), c as int) == l && (c == 0
            || line_breaks_before(rope_chars(*r), c - 1) < l),
        l == line_breaks_before(rope_chars(*r), rope_chars(*r).len() as int) + 1 ==> c
            == rope_chars(*r).len(),
{
    r.line_to_char(l)
}

/// `Rope::char_to_byte`: the byte where character `c` starts, or the
/// number of bytes for the character just past the end. It panics past
/// that character, which `requires` leaves out.
#[verifier::external_body]
fn rope_char_to_byte(r: &Rope, c: usize) -> (b: usize)
    requires
        c <= rope_chars(*r).len(),
    ensures
        b == byte_pos(rope_chars(*r), c as int),
{
    r.char_to_byte(c)
}

/// `String::from` on a `char`: a string of that one character.
#[verifier::external_body]
fn char_string(c: char) -> (s: String)
    ensures
        s@ == seq![c],
{
    String::from(c)
}

proof fn lemma_byte_pos_mono(cs: Seq<char>, a: int, b: int)
    requires
        a <= b,
    ensures
        byte_pos(cs, a) <= byte_pos(cs, b),
    decreases b - a,
{
    if a < b {
        lemma_byte_pos_mono(cs, a, b - 1);
    }
}

proof fn lemma_breaks_mono(cs: Seq<char>, a: int, b: int)
    requires
        a <= b,
    ensures
        line_breaks_before(cs, a) <= line_breaks_before(cs, b),
    decreases b - a,
{
    if a < b {
        lemma_breaks_mono(cs, a, b - 1);
    }
}

/// The character that ropey names for byte `b` is the one `char_of_byte` names.
proof fn lemma_char_of_byte(cs: Seq<char>, b: nat, c: int, n: int)
    requires
        0 <= c <= cs.len(),
        0 <= n <= cs.len(),
        byte_pos(cs, c) <= b,
        c < cs.len() ==> b < byte_pos(cs, c + 1),
    ensures
        chars_ending_by(cs, b, n) == if n <= c {
            n
        } else {
            c
        },
    decreases n,
{
    if n > 0 {
        lemma_char_of_byte(cs, b, c, n - 1);
        if n <= c {
            lemma_byte_pos_mono(cs, n, c);
        } else {
            lemma_byte_pos_mono(cs, c + 1, n);
        }
    }
}

/// The start that ropey gives for line `l` is the one `line_start` names.
proof fn lemma_line_start(cs: Seq<char>, l: nat, s: int, n: int)
    requires
        0 <= s <= cs.len(),
        0 <= n <= cs.len() + 1,
        line_breaks_before(cs, s) == l,
        s == 0 || line_breaks_before(cs, s - 1) < l,
    ensures
        positions_before_line(cs, l, n) == if n <= s {
            n
        } else {
            s
        },
    decreases n,
{
    if n > 0 {
        lemma_line_start(cs, l, s, n - 1);
        if n - 1 < s {
            lemma_breaks_mono(cs, n - 1, s - 1);
        } else {
            lemma_breaks_mono(cs, s, n - 1);
        }
    }
}

/// The line of character `char` of `text` and its column.
pub fn char_to_pos(text: &Rope, char: usize) -> (r: (usize, usize))
    requires
        char <= rope_chars(*text).len(),
    ensures
        r.0 == char_pos(rope_chars(*text), char as nat).0,
        r.1 == char_pos(rope_chars(*text), char as nat).1,
{
    let ghost cs = rope_chars(*text);
    proof {
        lemma_breaks_mono(cs, char as int, cs.len() as int);
    }
    let line = rope_char_to_line(text, char);
    let line_start = rope_line_to_char(text, line);
    proof {
        lemma_line_start(cs, line as nat, line_start as int, cs.len() + 1int);
        if line_start > char {
            lemma_breaks_mono(cs, char as int, line_start - 1);
        }
    }
    (line, char - line_start)
}

/// The line of byte `b` of `text` and its column in bytes.
fn byte_to_pos(text: &Rope, b: usize) -> (r: LineCol)
    requires
        b <= byte_pos(rope_chars(*text), rope_chars(*text).len() as int),
    ensures
        r.line == line_col(rope_chars(*text), b as nat).0,
        r.character == line_col(rope_chars(*text), b as nat).1,
{
    let ghost cs = rope_chars(*text);
    let c = rope_byte_to_char(text, b);
    proof {
        lemma_char_of_byte(cs, b as nat, c as int, cs.len() as int);
        lemma_breaks_mono(cs, c as int, cs.len() as int);
    }
    let line = rope_char_to_line(text, c);
    let start = rope_line_to_char(text, line);
    proof {
        lemma_line_start(cs, line as nat, start as int, cs.len() + 1int);
        if start > c {
            lemma_breaks_mono(cs, c as int, start - 1);
        }
        lemma_byte_pos_mono(cs, start as int, c as int);
    }
    let start_byte = rope_char_to_byte(text, start);
    LineCol { line, character: b - start_byte }
}

/// The lines and columns where the bytes `span.start` to `span.end` of
/// `text` stand, the columns counted in bytes from the start of their line
/// (the UTF-8 position encoding).
pub fn span_to_range(text: &Rope, span: Span) -> (r: LineColRange)
    requires
        span.start <= byte_pos(rope_chars(*text), rope_chars(*text).len() as int),
        span.end <= byte_pos(rope_chars(*text), rope_chars(*text).len() as int),
    ensures
        r.start.line == line_col(rope_chars(*text), span.start as nat).0,
        r.start.character == line_col(rope_chars(*text), span.start as nat).1,
        r.end.line == line_col(rope_chars(*text), span.end as nat).0,
        r.end.character == line_col(rope_chars(*text), span.end as nat).1,
{
    LineColRange { start: byte_to_pos(text, span.start), end: byte_to_pos(text, span.end) }
}

fn error_message_of(e: ErrorToken) -> (s: String)
    ensures
        s@ == error_message(e),
{
    match e {
        ErrorToken::InvalidChar(c) => {
            let ch = char_string(c);
            cat(owned("invalid token: "), ch.as_str())
        },
        ErrorToken::MisplacedTabs(n) => {
            let digits = usize_to_string(n);
            cat(cat(owned("tabs not at the beginning of the line count: "), digits.as_str()), " ")
        },
    }
}

proof fn lemma_lex_errors_of_tokens(toks: Seq<Spanned<Token>>)
    ensures
        lex_errors(spanned_token_views(toks)).len() == error_tokens_spec(toks).len(),
        forall|j: int|
            0 <= j < error_tokens_spec(toks).len() ==> #[trigger] lex_errors(spanned_token_views(toks))[j]
                == (error_tokens_spec(toks)[j].0, error_tokens_spec(toks)[j].1.start as nat,
                error_tokens_spec(toks)[j].1.end as nat),
    decreases toks.len(),
{
    if toks.len() > 0 {
        let vs = spanned_token_views(toks);
        assert(vs.drop_last() =~= spanned_token_views(toks.drop_last()));
        lemma_lex_errors_of_tokens(toks.drop_last());
    }
}

proof fn lemma_lex_errors_within(ts: Seq<(GTokenV<AbsoluteIndent>, nat, nat)>, bound: nat)
    requires
        forall|k: int| 0 <= k < ts.len() ==> #[trigger] ts[k].1 < ts[k].2 && ts[k].2 <= bound,
    ensures
        forall|j: int|
            0 <= j < lex_errors(ts).len() ==> #[trigger] lex_errors(ts)[j].1 < lex_errors(ts)[j].2
                && lex_errors(ts)[j].2 <= bound,
    decreases ts.len(),
{
    if ts.len() > 0 {
        assert(ts.last() == ts[ts.len() - 1]);
        assert forall|k: int| 0 <= k < ts.drop_last().len() implies #[trigger] ts.drop_last()[k].1
            < ts.drop_last()[k].2 && ts.drop_last()[k].2 <= bound by {
            assert(ts.drop_last()[k] == ts[k]);
        }
        lemma_lex_errors_within(ts.drop_last(), bound);
        let rest = lex_errors(ts.drop_last());
        assert forall|j: int| 0 <= j < lex_errors(ts).len() implies #[trigger] lex_errors(ts)[j].1
            < lex_errors(ts)[j].2 && lex_errors(ts)[j].2 <= bound by {
            if j < rest.len() {
                assert(lex_errors(ts)[j] == rest[j]);
            }
        }
    }
}

/// The invalid tokens of `text`, in order, each with the lines and columns
/// (in bytes, the UTF-8 position encoding) where it starts and ends, and
/// the message for it.
pub fn lex_diagnostics(text: &str) -> (r: Vec<(LineColRange, String)>)
    requires
        byte_pos(text@, text@.len() as int) <= usize::MAX,
    ensures
        r@.len() == lex_errors(lex(text@)).len(),
        forall|i: int|
            0 <= i < r@.len() ==> {
                let (e, s, t) = #[trigger] lex_errors(lex(text@))[i];
                &&& r@[i].0.start.line == line_col(text@, s).0
                &&& r@[i].0.start.character == line_col(text@, s).1
                &&& r@[i].0.end.line == line_col(text@, t).0
                &&& r@[i].0.end.character == line_col(text@, t).1
                &&& r@[i].1@ == error_message(e)
            },
{
    let toks = lexer(text);
    let errs = error_tokens(&toks);
    let rope = rope_from_str(text);
    let ghost errors = lex_errors(lex(text@));
    proof {
        lemma_lex_errors_of_tokens(toks@);
        lemma_lex_within(text@);
        lemma_lex_errors_within(lex(text@), byte_pos(text@, text@.len() as int));
    }
    let mut r: Vec<(LineColRange, String)> = Vec::new();
    let mut i: usize = 0;
    while i < errs.len()
        invariant
            i <= errs@.len(),
            errs@ == error_tokens_spec(toks@),
            errors == lex_errors(lex(text@)),
            errors == lex_errors(spanned_token_views(toks@)),
            errors.len() == errs@.len(),
            rope_chars(rope) == text@,
            forall|j: int|
                0 <= j < errs@.len() ==> #[trigger] errors[j] == (errs@[j].0, errs@[j].1.start as nat,
                errs@[j].1.end as nat),
            forall|j: int|
                0 <= j < errors.len() ==> #[trigger] errors[j].1 < errors[j].2 && errors[j].2
                    <= byte_pos(text@, text@.len() as int),
            r@.len() == i,
            forall|j: int|
                0 <= j < i ==> {
                    let (e, s, t) = #[trigger] errors[j];
                    &&& r@[j].0.start.line == line_col(text@, s).0
                    &&& r@[j].0.start.character == line_col(text@, s).1
                    &&& r@[j].0.end.line == line_col(text@, t).0
                    &&& r@[j].0.end.character == line_col(text@, t).1
                    &&& r@[j].1@ == error_message(e)
                },
        decreases errs@.len() - i,
    {
        let (e, span) = errs[i];
        assert(errors[i as int] == (e, span.start as nat, span.end as nat));
        assert(errors[i as int].1 < errors[i as int].2 && errors[i as int].2 <= byte_pos(text@, text@.len() as int));
        assert(span.end as nat <= byte_pos(rope_chars(rope), rope_chars(rope).len() as int));
        let range = span_to_range(&rope, span);
        let msg = error_message_of(e);
        r.push((range, msg));
        i = i + 1;
    }
    r
}

} // verus!
