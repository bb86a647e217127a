//! The lexer: source text to tokens, each with its region in bytes.
use vstd::prelude::*;
use vstd::string::*;

use crate::tokens::{AbsoluteIndent, ErrorToken, GToken, GTokenV, InertToken, InertTokenV, Span, Spanned, Token, ValidToken, ValidTokenV};

verus! {

broadcast use vstd::std_specs::vec::group_vec_axioms;

/// The characters of `s`, in order.
pub fn chars_of(s: &str) -> (v: Vec<char>)
    ensures
        v@ == s@,
{
    let mut v: Vec<char> = Vec::new();
    for c in it: s.chars()
        invariant
            v@ == it.seq().take(it.index() as int),
    {
        v.push(c);
    }
    assert(v@ =~= s@);
    v
}


// ---------------------------------------------------------------------------
// Character classes
// ---------------------------------------------------------------------------

/// Letters and `_` start an identifier.
pub open spec fn is_ident_start(c: char) -> bool {
    ('a' as u32 <= c as u32 <= 'z' as u32) || ('A' as u32 <= c as u32 <= 'Z' as u32) || c == '_'
}

pub open spec fn is_digit(c: char) -> bool {
    '0' as u32 <= c as u32 <= '9' as u32
}

/// Letters, digits and `_` continue an identifier.
pub open spec fn is_ident_continue(c: char) -> bool {
    is_ident_start(c) || is_digit(c)
}

/// Characters that end a line.
pub open spec fn is_newline_char(c: char) -> bool {
    c == '\n' || c == '\r' || c == '\x0B' || c == '\x0C' || c == '\u{85}' || c == '\u{2028}' || c
        == '\u{2029}'
}

/// Unicode white space.
pub open spec fn is_whitespace(c: char) -> bool {
    let u = c as u32;
    (9 <= u <= 13) || u == 32 || u == 0x85 || u == 0xA0 || u == 0x1680 || (0x2000 <= u <= 0x200A)
        || u == 0x2028 || u == 0x2029 || u == 0x202F || u == 0x205F || u == 0x3000
}

pub open spec fn is_tab(c: char) -> bool {
    c == '\t'
}

pub open spec fn not_newline(c: char) -> bool {
    !is_newline_char(c)
}

fn ident_start(c: char) -> (b: bool)
    ensures
        b == is_ident_start(c),
{
    let u = c as u32;
    (97 <= u && u <= 122) || (65 <= u && u <= 90) || u == 95
}

fn digit(c: char) -> (b: bool)
    ensures
        b == is_digit(c),
{
    let u = c as u32;
    48 <= u && u <= 57
}

fn ident_continue(c: char) -> (b: bool)
    ensures
        b == is_ident_continue(c),
{
    ident_start(c) || digit(c)
}

fn newline_char(c: char) -> (b: bool)
    ensures
        b == is_newline_char(c),
{
    c == '\n' || c == '\r' || c == '\x0B' || c == '\x0C' || c == '\u{85}' || c == '\u{2028}' || c
        == '\u{2029}'
}

fn whitespace(c: char) -> (b: bool)
    ensures
        b == is_whitespace(c),
{
    let u = c as u32;
    (9 <= u && u <= 13) || u == 32 || u == 0x85 || u == 0xA0 || u == 0x1680 || (0x2000 <= u && u
        <= 0x200A) || u == 0x2028 || u == 0x2029 || u == 0x202F || u == 0x205F || u == 0x3000
}

// ---------------------------------------------------------------------------
// The grammar of one token
// ---------------------------------------------------------------------------

/// The classes of characters that a token takes as many of as it can.
#[derive(Clone, Copy)]
pub enum CharClass {
    IdentContinue,
    Digit,
    Whitespace,
    Tab,
    NotNewline,
}

pub open spec fn in_class(cl: CharClass, c: char) -> bool {
    match cl {
        CharClass::IdentContinue => is_ident_continue(c),
        CharClass::Digit => is_digit(c),
        CharClass::Whitespace => is_whitespace(c),
        CharClass::Tab => is_tab(c),
        CharClass::NotNewline => not_newline(c),
    }
}

fn char_in_class(cl: CharClass, c: char) -> (b: bool)
    ensures
        b == in_class(cl, c),
{
    match cl {
        CharClass::IdentContinue => ident_continue(c),
        CharClass::Digit => digit(c),
        CharClass::Whitespace => whitespace(c),
        CharClass::Tab => c == '\t',
        CharClass::NotNewline => !newline_char(c),
    }
}

/// The end of the longest run of characters of class `cl` from `k` on.
pub open spec fn run_end(cs: Seq<char>, k: int, cl: CharClass) -> int
    decreases cs.len() - k,
{
    if 0 <= k < cs.len() && in_class(cl, cs[k]) {
        run_end(cs, k + 1, cl)
    } else {
        k
    }
}

pub proof fn lemma_run_end(cs: Seq<char>, k: int, cl: CharClass)
    requires
        0 <= k <= cs.len(),
    ensures
        k <= run_end(cs, k, cl) <= cs.len(),
        forall|m: int| k <= m < run_end(cs, k, cl) ==> in_class(cl, #[trigger] cs[m]),
        run_end(cs, k, cl) < cs.len() ==> !in_class(cl, cs[run_end(cs, k, cl)]),
    decreases cs.len() - k,
{
    if k < cs.len() && in_class(cl, cs[k]) {
        lemma_run_end(cs, k + 1, cl);
    }
}

/// The end of the longest run of characters of class `cl` from `k` on.
fn scan(cs: &Vec<char>, k: usize, cl: CharClass) -> (e: usize)
    requires
        k <= cs@.len(),
    ensures
        e == run_end(cs@, k as int, cl),
{
    let mut e = k;
    while e < cs.len() && char_in_class(cl, cs[e])
        invariant
            k <= e <= cs@.len(),
            run_end(cs@, k as int, cl) == run_end(cs@, e as int, cl),
        decreases cs@.len() - e,
    {
        e = e + 1;
    }
    e
}

pub open spec fn at(cs: Seq<char>, i: int, c: char) -> bool {
    0 <= i < cs.len() && cs[i] == c
}

/// The end of the identifier that starts at `i`.
pub open spec fn ident_end(cs: Seq<char>, i: int) -> int {
    run_end(cs, i + 1, CharClass::IdentContinue)
}

/// Tokens of one character.
pub open spec fn single_char(c: char) -> Option<ValidTokenV<AbsoluteIndent>> {
    if c == '.' {
        Some(ValidTokenV::Dot)
    } else if c == ':' {
        Some(ValidTokenV::Colon)
    } else if c == '*' {
        Some(ValidTokenV::Star)
    } else if c == ',' {
        Some(ValidTokenV::Comma)
    } else if c == '(' {
        Some(ValidTokenV::LParen)
    } else if c == ')' {
        Some(ValidTokenV::RParen)
    } else if c == '=' {
        Some(ValidTokenV::Eq)
    } else if c == ';' {
        Some(ValidTokenV::SemiColon)
    } else {
        None
    }
}

/// A word: one of the keywords, or else an identifier.
pub open spec fn word_token(w: Seq<char>) -> ValidTokenV<AbsoluteIndent> {
    if w == seq!['d', 'e', 'f'] {
        ValidTokenV::Def
    } else if w == seq!['T', 'y', 'p', 'e'] {
        ValidTokenV::Type
    } else if w == seq!['M', 'o', 'd'] {
        ValidTokenV::Mod
    } else if w == seq!['l', 'o', 'o', 'p'] {
        ValidTokenV::Loop
    } else if w == seq!['w', 'h', 'i', 'l', 'e'] {
        ValidTokenV::While
    } else if w == seq!['f', 'o', 'r'] {
        ValidTokenV::For
    } else if w == seq!['b', 'r', 'e', 'a', 'k'] {
        ValidTokenV::Break
    } else if w == seq!['l', 'e', 't'] {
        ValidTokenV::Let
    } else if w == seq!['i', 'n'] {
        ValidTokenV::In
    } else {
        ValidTokenV::Ident(w)
    }
}

/// The length of the line break at `i`, or 0: `\r\n` counts as one break.
pub open spec fn newline_len(cs: Seq<char>, i: int) -> int {
    if at(cs, i, '\r') && at(cs, i + 1, '\n') {
        2
    } else if 0 <= i < cs.len() && is_newline_char(cs[i]) {
        1
    } else {
        0
    }
}

/// Whether a string literal (`"` identifier `"`) starts at `i`.
pub open spec fn string_at(cs: Seq<char>, i: int) -> bool {
    at(cs, i, '"') && i + 1 < cs.len() && is_ident_start(cs[i + 1]) && at(cs, ident_end(cs, i + 1), '"')
}

/// The token that starts at `i` and where it ends. The alternatives are
/// tried in this order: `->`, `=>`, the keyword `fn`, `:=`, a token of one
/// character, a string literal, a number, a word, `|>`, a line break with the
/// tabs after it, white space, a `//` comment; any other character is invalid.
pub open spec fn next_token(cs: Seq<char>, i: int) -> (GTokenV<AbsoluteIndent>, int) {
    if at(cs, i, '-') && at(cs, i + 1, '>') {
        (GTokenV::ValidToken(ValidTokenV::Arrow), i + 2)
    } else if at(cs, i, '=') && at(cs, i + 1, '>') {
        (GTokenV::ValidToken(ValidTokenV::DoubleArrow), i + 2)
    } else if at(cs, i, 'f') && at(cs, i + 1, 'n') && ident_end(cs, i) == i + 2 {
        (GTokenV::ValidToken(ValidTokenV::Fn), i + 2)
    } else if at(cs, i, ':') && at(cs, i + 1, '=') {
        (GTokenV::ValidToken(ValidTokenV::Assign), i + 2)
    } else if single_char(cs[i]) is Some {
        (GTokenV::ValidToken(single_char(cs[i]).unwrap()), i + 1)
    } else if string_at(cs, i) {
        let e = ident_end(cs, i + 1);
        (GTokenV::ValidToken(ValidTokenV::String(cs.subrange(i + 1, e))), e + 1)
    } else if is_digit(cs[i]) {
        let e = run_end(cs, i, CharClass::Digit);
        (GTokenV::ValidToken(ValidTokenV::Number(cs.subrange(i, e))), e)
    } else if is_ident_start(cs[i]) {
        let e = ident_end(cs, i);
        (GTokenV::ValidToken(word_token(cs.subrange(i, e))), e)
    } else if at(cs, i, '|') && at(cs, i + 1, '>') {
        (GTokenV::ValidToken(ValidTokenV::Pipe), i + 2)
    } else if newline_len(cs, i) > 0 {
        let s = i + newline_len(cs, i);
        let e = run_end(cs, s, CharClass::Tab);
        (GTokenV::ValidToken(ValidTokenV::Newline(AbsoluteIndent((e - s) as usize))), e)
    } else if is_whitespace(cs[i]) {
        let e = run_end(cs, i, CharClass::Whitespace);
        (GTokenV::InertToken(InertTokenV::Space((e - i) as usize)), e)
    } else if at(cs, i, '/') && at(cs, i + 1, '/') {
        let e = run_end(cs, i + 2, CharClass::NotNewline);
        (GTokenV::InertToken(InertTokenV::Comment(cs.subrange(i + 2, e))), e)
    } else {
        (GTokenV::ErrorToken(ErrorToken::InvalidChar(cs[i])), i + 1)
    }
}

pub proof fn lemma_next_token_advances(cs: Seq<char>, i: int)
    requires
        0 <= i < cs.len(),
    ensures
        i < next_token(cs, i).1 <= cs.len(),
{
    lemma_run_end(cs, i, CharClass::Digit);
    lemma_run_end(cs, i + 1, CharClass::IdentContinue);
    lemma_run_end(cs, i, CharClass::Whitespace);
    if newline_len(cs, i) > 0 {
        lemma_run_end(cs, i + newline_len(cs, i), CharClass::Tab);
    }
    if at(cs, i, '/') && at(cs, i + 1, '/') {
        lemma_run_end(cs, i + 2, CharClass::NotNewline);
    }
    if string_at(cs, i) {
        lemma_run_end(cs, i + 2, CharClass::IdentContinue);
    }
}

/// The tokens of `cs` from position `i` on, each with the character
/// positions where it starts and ends.
pub open spec fn lex_from(cs: Seq<char>, i: int) -> Seq<(GTokenV<AbsoluteIndent>, int, int)>
    decreases cs.len() - i,
{
    if 0 <= i < cs.len() {
        let (t, j) = next_token(cs, i);
        proof {
            lemma_next_token_advances(cs, i);
        }
        seq![(t, i, j)] + lex_from(cs, j)
    } else {
        Seq::empty()
    }
}

/// The number of bytes of `c` in UTF-8.
pub open spec fn utf8_len(c: char) -> nat {
    if (c as u32) < 0x80 {
        1
    } else if (c as u32) < 0x800 {
        2
    } else if (c as u32) < 0x10000 {
        3
    } else {
        4
    }
}

/// The byte offset of character `k` of `cs` in UTF-8.
pub open spec fn byte_pos(cs: Seq<char>, k: int) -> nat
    decreases k,
{
    if k <= 0 {
        0
    } else {
        byte_pos(cs, k - 1) + utf8_len(cs[k - 1])
    }
}

proof fn lemma_lex_from_covers(cs: Seq<char>, i: int)
    requires
        0 <= i <= cs.len(),
    ensures
        lex_from(cs, i).len() == 0 <==> i == cs.len(),
        lex_from(cs, i).len() > 0 ==> lex_from(cs, i)[0].1 == i && lex_from(cs, i).last().2 == cs.len(),
        forall|k: int| 0 <= k < lex_from(cs, i).len() ==> i <= #[trigger] lex_from(cs, i)[k].1 < lex_from(cs, i)[k].2 <= cs.len(),
        forall|k: int| 0 <= k < lex_from(cs, i).len() - 1 ==> #[trigger] lex_from(cs, i)[k].2 == lex_from(cs, i)[k + 1].1,
    decreases cs.len() - i,
{
    if i < cs.len() {
        let (t, j) = next_token(cs, i);
        lemma_next_token_advances(cs, i);
        lemma_lex_from_covers(cs, j);
        let rest = lex_from(cs, j);
        let all = lex_from(cs, i);
        assert(all == seq![(t, i, j)] + rest);
        assert forall|k: int| 0 <= k < all.len() implies i <= #[trigger] all[k].1 < all[k].2 <= cs.len() by {
            if k > 0 {
                assert(all[k] == rest[k - 1]);
            }
        }
        assert forall|k: int| 0 <= k < all.len() - 1 implies #[trigger] all[k].2 == all[k + 1].1 by {
            assert(all[k + 1] == rest[k]);
            if k > 0 {
                assert(all[k] == rest[k - 1]);
            }
        }
        if rest.len() > 0 {
            assert(all.last() == rest.last());
        }
    }
}

proof fn lemma_byte_pos_grows(cs: Seq<char>, a: int, b: int)
    requires
        0 <= a < b <= cs.len(),
    ensures
        byte_pos(cs, a) < byte_pos(cs, b),
    decreases b - a,
{
    if a + 1 < b {
        lemma_byte_pos_grows(cs, a, b - 1);
    }
}

/// The tokens cover the text without gap or overlap: the first starts at
/// byte 0, each ends where the next one starts, the last ends at the end of
/// the text, and no token is empty. A text without characters has no token.
pub proof fn lemma_lex_covers(cs: Seq<char>)
    ensures
        lex(cs).len() == 0 <==> cs.len() == 0,
        lex(cs).len() > 0 ==> lex(cs)[0].1 == 0 && lex(cs).last().2 == byte_pos(cs, cs.len() as int),
        forall|k: int| 0 <= k < lex(cs).len() ==> #[trigger] lex(cs)[k].1 < lex(cs)[k].2,
        forall|k: int| 0 <= k < lex(cs).len() - 1 ==> #[trigger] lex(cs)[k].2 == lex(cs)[k + 1].1,
{
    let lf = lex_from(cs, 0);
    lemma_lex_from_covers(cs, 0);
    let ts = lex(cs);
    assert(ts.len() == lf.len());
    assert forall|k: int| 0 <= k < ts.len() implies #[trigger] ts[k].1 < ts[k].2 by {
        lemma_byte_pos_grows(cs, lf[k].1, lf[k].2);
    }
    assert forall|k: int| 0 <= k < ts.len() - 1 implies #[trigger] ts[k].2 == ts[k + 1].1 by {
        assert(lf[k].2 == lf[k + 1].1);
    }
    if ts.len() > 0 {
        assert(ts.last() == ts[ts.len() - 1]);
        assert(lf.last() == lf[lf.len() - 1]);
    }
}

/// Every token lies inside the text: it starts before it ends, and it ends
/// at or before the last byte.
pub proof fn lemma_lex_within(cs: Seq<char>)
    ensures
        forall|k: int|
            0 <= k < lex(cs).len() ==> #[trigger] lex(cs)[k].1 < lex(cs)[k].2 && lex(cs)[k].2 <= byte_pos(
                cs,
                cs.len() as int,
            ),
{
    let lf = lex_from(cs, 0);
    lemma_lex_from_covers(cs, 0);
    lemma_lex_covers(cs);
    assert forall|k: int| 0 <= k < lex(cs).len() implies #[trigger] lex(cs)[k].2 <= byte_pos(cs, cs.len() as int) by {
        if lf[k].2 < cs.len() {
            lemma_byte_pos_grows(cs, lf[k].2, cs.len() as int);
        }
    }
}

/// Character positions of tokens replaced by byte offsets.
pub open spec fn with_bytes(cs: Seq<char>, ts: Seq<(GTokenV<AbsoluteIndent>, int, int)>) -> Seq<(GTokenV<AbsoluteIndent>, nat, nat)> {
    ts.map_values(
        |t: (GTokenV<AbsoluteIndent>, int, int)| (t.0, byte_pos(cs, t.1), byte_pos(cs, t.2)),
    )
}

/// The tokens of `cs` with their regions in bytes.
pub open spec fn lex(cs: Seq<char>) -> Seq<(GTokenV<AbsoluteIndent>, nat, nat)> {
    with_bytes(cs, lex_from(cs, 0))
}

pub open spec fn spanned_token_views(toks: Seq<Spanned<Token>>) -> Seq<(GTokenV<AbsoluteIndent>, nat, nat)> {
    toks.map_values(|t: Spanned<Token>| (t.0@, t.1.start as nat, t.1.end as nat))
}

// ---------------------------------------------------------------------------
// The lexer
// ---------------------------------------------------------------------------

fn char_at(cs: &Vec<char>, i: usize, c: char) -> (b: bool)
    ensures
        b == at(cs@, i as int, c),
{
    i < cs.len() && cs[i] == c
}

fn next_char_at(cs: &Vec<char>, i: usize, c: char) -> (b: bool)
    requires
        i < cs@.len(),
    ensures
        b == at(cs@, i + 1, c),
{
    let n = cs.len();
    i + 1 < n && cs[i + 1] == c
}

/// Whether `cs[a..e]` is the word `w`.
fn word_is(cs: &Vec<char>, a: usize, e: usize, w: &[char]) -> (b: bool)
    requires
        a <= e <= cs@.len(),
    ensures
        b == (cs@.subrange(a as int, e as int) == w@),
{
    if e - a != w.len() {
        return false;
    }
    let mut k: usize = 0;
    while k < w.len()
        invariant
            a <= e <= cs@.len(),
            e - a == w@.len(),
            k <= w@.len(),
            forall|m: int| 0 <= m < k ==> cs@[a + m] == w@[m],
        decreases w@.len() - k,
    {
        if cs[a + k] != w[k] {
            assert(cs@.subrange(a as int, e as int)[k as int] != w@[k as int]);
            return false;
        }
        k = k + 1;
    }
    assert(cs@.subrange(a as int, e as int) =~= w@);
    true
}

fn word_token_exec(input: &str, cs: &Vec<char>, a: usize, e: usize) -> (t: ValidToken<AbsoluteIndent>)
    requires
        cs@ == input@,
        a <= e <= cs@.len(),
    ensures
        t@ == word_token(cs@.subrange(a as int, e as int)),
{
    let ghost w = cs@.subrange(a as int, e as int);
    let def = ['d', 'e', 'f'];
    let ty = ['T', 'y', 'p', 'e'];
    let md = ['M', 'o', 'd'];
    let lp = ['l', 'o', 'o', 'p'];
    let wh = ['w', 'h', 'i', 'l', 'e'];
    let fo = ['f', 'o', 'r'];
    let br = ['b', 'r', 'e', 'a', 'k'];
    let le = ['l', 'e', 't'];
    let inn = ['i', 'n'];
    assert(def@ =~= seq!['d', 'e', 'f']);
    assert(ty@ =~= seq!['T', 'y', 'p', 'e']);
    assert(md@ =~= seq!['M', 'o', 'd']);
    assert(lp@ =~= seq!['l', 'o', 'o', 'p']);
    assert(wh@ =~= seq!['w', 'h', 'i', 'l', 'e']);
    assert(fo@ =~= seq!['f', 'o', 'r']);
    assert(br@ =~= seq!['b', 'r', 'e', 'a', 'k']);
    assert(le@ =~= seq!['l', 'e', 't']);
    assert(inn@ =~= seq!['i', 'n']);
    if word_is(cs, a, e, &def) {
        ValidToken::Def
    } else if word_is(cs, a, e, &ty) {
        ValidToken::Type
    } else if word_is(cs, a, e, &md) {
        ValidToken::Mod
    } else if word_is(cs, a, e, &lp) {
        ValidToken::Loop
    } else if word_is(cs, a, e, &wh) {
        ValidToken::While
    } else if word_is(cs, a, e, &fo) {
        ValidToken::For
    } else if word_is(cs, a, e, &br) {
        ValidToken::Break
    } else if word_is(cs, a, e, &le) {
        ValidToken::Let
    } else if word_is(cs, a, e, &inn) {
        ValidToken::In
    } else {
        ValidToken::Ident(String::from_str(input.substring_char(a, e)))
    }
}

fn single_char_exec(c: char) -> (t: Option<ValidToken<AbsoluteIndent>>)
    ensures
        match t {
            Some(v) => single_char(c) == Some(v@),
            None => single_char(c) is None,
        },
{
    if c == '.' {
        Some(ValidToken::Dot)
    } else if c == ':' {
        Some(ValidToken::Colon)
    } else if c == '*' {
        Some(ValidToken::Star)
    } else if c == ',' {
        Some(ValidToken::Comma)
    } else if c == '(' {
        Some(ValidToken::LParen)
    } else if c == ')' {
        Some(ValidToken::RParen)
    } else if c == '=' {
        Some(ValidToken::Eq)
    } else if c == ';' {
        Some(ValidToken::SemiColon)
    } else {
        None
    }
}

fn newline_len_exec(cs: &Vec<char>, i: usize) -> (n: usize)
    requires
        i < cs@.len(),
    ensures
        n == newline_len(cs@, i as int),
{
    if cs[i] == '\r' && next_char_at(cs, i, '\n') {
        2
    } else if newline_char(cs[i]) {
        1
    } else {
        0
    }
}

/// The token that starts at character `i` of `input`, and where it ends.
fn next_token_exec(input: &str, cs: &Vec<char>, i: usize) -> (r: (Token, usize))
    requires
        cs@ == input@,
        i < cs@.len(),
    ensures
        r.0@ == next_token(cs@, i as int).0,
        r.1 == next_token(cs@, i as int).1,
{
    let ghost s = cs@;
    let n = cs.len();
    proof {
        lemma_next_token_advances(s, i as int);
        lemma_run_end(s, i + 1, CharClass::IdentContinue);
    }
    let c = cs[i];
    if c == '-' && next_char_at(cs, i, '>') {
        return (GToken::ValidToken(ValidToken::Arrow), i + 2);
    }
    if c == '=' && next_char_at(cs, i, '>') {
        return (GToken::ValidToken(ValidToken::DoubleArrow), i + 2);
    }
    if c == 'f' && next_char_at(cs, i, 'n') && scan(cs, i + 1, CharClass::IdentContinue) == i + 2 {
        return (GToken::ValidToken(ValidToken::Fn), i + 2);
    }
    if c == ':' && next_char_at(cs, i, '=') {
        return (GToken::ValidToken(ValidToken::Assign), i + 2);
    }
    match single_char_exec(c) {
        Some(t) => {
            return (GToken::ValidToken(t), i + 1);
        },
        None => {},
    }
    if c == '"' && i + 1 < cs.len() && ident_start(cs[i + 1]) {
        proof {
            lemma_run_end(s, i + 2, CharClass::IdentContinue);
        }
        let e = scan(cs, i + 2, CharClass::IdentContinue);
        if char_at(cs, e, '"') {
            let text = String::from_str(input.substring_char(i + 1, e));
            return (GToken::ValidToken(ValidToken::String(text)), e + 1);
        }
    }
    if digit(c) {
        proof {
            lemma_run_end(s, i as int, CharClass::Digit);
        }
        let e = scan(cs, i, CharClass::Digit);
        let text = String::from_str(input.substring_char(i, e));
        return (GToken::ValidToken(ValidToken::Number(text)), e);
    }
    if ident_start(c) {
        let e = scan(cs, i + 1, CharClass::IdentContinue);
        return (GToken::ValidToken(word_token_exec(input, cs, i, e)), e);
    }
    if c == '|' && next_char_at(cs, i, '>') {
        return (GToken::ValidToken(ValidToken::Pipe), i + 2);
    }
    let nl = newline_len_exec(cs, i);
    if nl > 0 {
        proof {
            lemma_run_end(s, i + nl, CharClass::Tab);
        }
        let e = scan(cs, i + nl, CharClass::Tab);
        return (GToken::ValidToken(ValidToken::Newline(AbsoluteIndent(e - (i + nl)))), e);
    }
    if whitespace(c) {
        proof {
            lemma_run_end(s, i as int, CharClass::Whitespace);
        }
        let e = scan(cs, i, CharClass::Whitespace);
        return (GToken::InertToken(InertToken::Space(e - i)), e);
    }
    if c == '/' && next_char_at(cs, i, '/') {
        proof {
            lemma_run_end(s, i + 2, CharClass::NotNewline);
        }
        let e = scan(cs, i + 2, CharClass::NotNewline);
        let text = String::from_str(input.substring_char(i + 2, e));
        return (GToken::InertToken(InertToken::Comment(text)), e);
    }
    (GToken::ErrorToken(ErrorToken::InvalidChar(c)), i + 1)
}

fn utf8_len_exec(c: char) -> (n: usize)
    ensures
        n == utf8_len(c),
{
    let u = c as u32;
    if u < 0x80 {
        1
    } else if u < 0x800 {
        2
    } else if u < 0x10000 {
        3
    } else {
        4
    }
}

proof fn lemma_byte_pos_mono(cs: Seq<char>, a: int, b: int)
    requires
        a <= b,
    ensures
        byte_pos(cs, a) <= byte_pos(cs, b),
    decreases b - a,
{
    if a < b {
        lemma_byte_pos_mono(cs, a, b - 1);
    }
}

/// Splits `input` into tokens. Each token carries its region of `input` in
/// bytes; nothing is dropped: spaces, comments and invalid characters are
/// tokens too.
pub fn lexer(input: &str) -> (toks: Vec<Spanned<Token>>)
    requires
        byte_pos(input@, input@.len() as int) <= usize::MAX,
    ensures
        spanned_token_views(toks@) == lex(input@),
{
    let cs = chars_of(input);
    let ghost s = cs@;
    let mut toks: Vec<Spanned<Token>> = Vec::new();
    let mut i: usize = 0;
    let mut b: usize = 0;
    while i < cs.len()
        invariant
            s == cs@,
            s == input@,
            i <= s.len(),
            b == byte_pos(s, i as int),
            byte_pos(s, s.len() as int) <= usize::MAX,
            lex(s) == spanned_token_views(toks@) + with_bytes(s, lex_from(s, i as int)),
        decreases s.len() - i,
    {
        let (tok, j) = next_token_exec(input, &cs, i);
        proof {
            lemma_next_token_advances(s, i as int);
        }
        let mut e = b;
        let mut k = i;
        while k < j
            invariant
                i <= k <= j <= s.len(),
                s == cs@,
                e == byte_pos(s, k as int),
                byte_pos(s, s.len() as int) <= usize::MAX,
            decreases j - k,
        {
            proof {
                lemma_byte_pos_mono(s, k + 1, s.len() as int);
            }
            e = e + utf8_len_exec(cs[k]);
            k = k + 1;
        }
        let ghost before = toks@;
        toks.push((tok, Span { start: b, end: e }));
        proof {
            let rest = lex_from(s, j as int);
            assert(lex_from(s, i as int) == seq![(tok@, i as int, j as int)] + rest);
            assert(with_bytes(s, lex_from(s, i as int)) =~= with_bytes(s, seq![(tok@, i as int, j as int)]) + with_bytes(s, rest));
            assert(spanned_token_views(toks@) =~= spanned_token_views(before) + with_bytes(s, seq![(tok@, i as int, j as int)]));
        }
        i = j;
        b = e;
    }
    proof {
        assert(with_bytes(s, lex_from(s, i as int)) =~= Seq::empty());
    }
    assert(lex(s) =~= spanned_token_views(toks@));
    toks
}

/// The values of `v[i..]` in order when none of them is an error, else the
/// first error among them.
pub open spec fn collect_from<A, E>(v: Seq<Result<A, E>>, i: int) -> Result<Seq<A>, E>
    decreases v.len() - i,
{
    if i < 0 || i >= v.len() {
        Ok(Seq::empty())
    } else {
        match v[i] {
            Err(e) => Err(e),
            Ok(a) => match collect_from(v, i + 1) {
                Ok(rest) => Ok(seq![a] + rest),
                Err(e) => Err(e),
            },
        }
    }
}

/// All values of `v` in order, or the first error, as `collect_from` says.
pub fn collect_results<A, E>(v: Vec<Result<A, E>>) -> (r: Result<Vec<A>, E>)
    ensures
        match (r, collect_from(v@, 0)) {
            (Ok(x), Ok(y)) => x@ == y,
            (Err(e), Err(f)) => e == f,
            _ => false,
        },
{
    let ghost all = v@;
    let mut items = v;
    let mut rev: Vec<Result<A, E>> = Vec::new();
    while items.len() > 0
        invariant
            all == items@ + rev@.reverse(),
        decreases items.len(),
    {
        let x = items.pop().unwrap();
        proof {
            assert(items@.push(x) + rev@.reverse() =~= items@ + rev@.push(x).reverse());
        }
        rev.push(x);
    }
    assert(rev@.reverse() =~= all);
    let ghost n = all.len();
    let mut res: Vec<A> = Vec::new();
    while rev.len() > 0
        invariant
            rev@.len() <= n,
            n == all.len(),
            all == v@,
            forall|k: int| 0 <= k < rev@.len() ==> #[trigger] rev@[k] == all[n - 1 - k],
            collect_from(all, 0) == match collect_from(all, n - rev@.len()) {
                Ok(rest) => Ok(res@ + rest),
                Err(e) => Err(e),
            },
        decreases rev.len(),
    {
        let ghost i = n - rev@.len();
        let x = rev.pop().unwrap();
        assert(x == all[i]);
        match x {
            Ok(a) => {
                proof {
                    match collect_from(all, i + 1) {
                        Ok(rest) => {
                            assert(res@.push(a) + rest =~= res@ + (seq![a] + rest));
                        },
                        Err(_) => {},
                    }
                }
                res.push(a);
            },
            Err(e) => {
                assert(collect_from(all, i) == Err::<Seq<A>, E>(e));
                return Err(e);
            },
        }
    }
    assert(res@ + Seq::<A>::empty() =~= res@);
    Ok(res)
}

/// ASCII letters, digits and `_`.
pub open spec fn is_word_char(c: char) -> bool {
    let u = c as u32;
    (97 <= u <= 122) || (65 <= u <= 90) || (48 <= u <= 57) || c == '_'
}

/// An identifier token `(t, s, e)` of `cs` covers exactly the characters it
/// holds, begins with a letter or `_`, holds only letters, digits and `_`,
/// and is not directly followed by a letter, a digit or `_`; any other
/// token is not constrained here.
pub open spec fn maximal_identifier(cs: Seq<char>, x: (GTokenV<AbsoluteIndent>, int, int)) -> bool {
    match x.0 {
        GTokenV::ValidToken(ValidTokenV::Ident(w)) => {
            &&& 0 <= x.1 < x.2 <= cs.len()
            &&& w == cs.subrange(x.1, x.2)
            &&& !is_digit(w[0])
            &&& forall|m: int| 0 <= m < w.len() ==> is_word_char(#[trigger] w[m])
            &&& (x.2 == cs.len() || !is_word_char(cs[x.2]))
        },
        _ => true,
    }
}

/// Identifiers are maximal: every identifier token is a longest run of
/// letters, digits and `_` that begins with a letter or `_`, so `x1` is one
/// identifier and never `x` followed by `1`. Positions are counted in
/// characters, as `lex` has them before they become bytes.
pub proof fn lemma_identifiers_are_maximal(cs: Seq<char>, i: int)
    requires
        0 <= i,
    ensures
        forall|k: int| 0 <= k < lex_from(cs, i).len() ==> maximal_identifier(cs, #[trigger] lex_from(cs, i)[k]),
    decreases cs.len() - i,
{
    if i < cs.len() {
        let (t, j) = next_token(cs, i);
        lemma_next_token_advances(cs, i);
        lemma_identifiers_are_maximal(cs, j);
        lemma_run_end(cs, i + 1, CharClass::IdentContinue);
        let all = lex_from(cs, i);
        let rest = lex_from(cs, j);
        assert(all == seq![(t, i, j)] + rest);
        assert forall|k: int| 0 <= k < all.len() implies maximal_identifier(cs, #[trigger] all[k]) by {
            if k == 0 {
                assert(all[0] == (t, i, j));
                if let GTokenV::ValidToken(ValidTokenV::Ident(w)) = t {
                    assert('a' as u32 == 97 && 'z' as u32 == 122 && 'A' as u32 == 65 && 'Z' as u32 == 90);
                    assert('0' as u32 == 48 && '9' as u32 == 57 && '_' as u32 == 95);
                    assert(is_ident_start(cs[i]));
                    assert(j == ident_end(cs, i));
                    assert(w == cs.subrange(i, j));
                    assert(w[0] == cs[i]);
                    assert(!is_digit(w[0]));
                    if j < cs.len() {
                        assert(!is_ident_continue(cs[j]));
                        assert(!is_word_char(cs[j]));
                    }
                    assert forall|m: int| 0 <= m < w.len() implies is_word_char(#[trigger] w[m]) by {
                        assert(w[m] == cs[i + m]);
                        if m > 0 {
                            assert(in_class(CharClass::IdentContinue, cs[i + m]));
                        }
                    }
                }
            } else {
                assert(all[k] == rest[k - 1]);
            }
        }
    }
}

} // verus!
