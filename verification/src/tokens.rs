//! Tokens produced by the lexer, and the mapping of token positions back
//! to source positions.
use vstd::prelude::*;

verus! {

/// A change of indentation relative to the previous line.
pub enum RelativeIndent {
    Indent(usize),
    Dedent(usize),
    Same,
}

/// The number of tabs that start a line.
#[derive(Debug, Clone, Copy, PartialEq, Eq, Structural)]
pub struct AbsoluteIndent(pub usize);

/// A region of the source, in bytes: `start` inclusive, `end` exclusive.
#[derive(Debug, Clone, Copy, PartialEq, Eq, Structural)]
pub struct Span {
    pub start: usize,
    pub end: usize,
}

/// Characters that no token accepts.
#[derive(Debug, Clone, Copy, PartialEq, Eq, Structural)]
pub enum ErrorToken {
    InvalidChar(char),
    MisplacedTabs(usize),
}

/// Text that carries no meaning for the parser.
#[derive(Debug, Clone, PartialEq, Eq)]
pub enum InertToken {
    Comment(String),
    Space(usize),
}

/// Tokens that the parser reads; `Indent` is how a line break records the
/// indentation of the next line.
#[derive(Debug, Clone, PartialEq, Eq)]
pub enum ValidToken<Indent> {
    Ident(String),
    /// A decimal literal, kept as its digits.
    Number(String),
    String(String),
    Def,
    Fn,
    Dot,
    Colon,
    SemiColon,
    Arrow,
    DoubleArrow,
    Pipe,
    Star,
    Comma,
    LParen,
    RParen,
    LBrace,
    RBrace,
    LBracket,
    RBracket,
    Hashtag,
    Type,
    Eq,
    Assign,
    Newline(Indent),
    Loop,
    While,
    For,
    Break,
    Let,
    In,
    Mod,
}

/// Any token of the source.
#[derive(Debug, Clone, PartialEq, Eq)]
pub enum GToken<Tab> {
    ValidToken(ValidToken<Tab>),
    InertToken(InertToken),
    ErrorToken(ErrorToken),
}

pub type Token = GToken<AbsoluteIndent>;

/// A token with the region of the source it was read from.
pub type Spanned<T> = (T, Span);

/// The value of a valid token, with texts seen as character sequences.
pub enum ValidTokenV<I> {
    Ident(Seq<char>),
    Number(Seq<char>),
    String(Seq<char>),
    Def,
    Fn,
    Dot,
    Colon,
    SemiColon,
    Arrow,
    DoubleArrow,
    Pipe,
    Star,
    Comma,
    LParen,
    RParen,
    LBrace,
    RBrace,
    LBracket,
    RBracket,
    Hashtag,
    Type,
    Eq,
    Assign,
    Newline(I),
    Loop,
    While,
    For,
    Break,
    Let,
    In,
    Mod,
}

pub enum InertTokenV {
    Comment(Seq<char>),
    Space(usize),
}

pub enum GTokenV<I> {
    ValidToken(ValidTokenV<I>),
    InertToken(InertTokenV),
    ErrorToken(ErrorToken),
}

impl<I> View for ValidToken<I> {
    type V = ValidTokenV<I>;

    open spec fn view(&self) -> ValidTokenV<I> {
        match self {
            ValidToken::Ident(s) => ValidTokenV::Ident(s@),
            ValidToken::Number(s) => ValidTokenV::Number(s@),
            ValidToken::String(s) => ValidTokenV::String(s@),
            ValidToken::Def => ValidTokenV::Def,
            ValidToken::Fn => ValidTokenV::Fn,
            ValidToken::Dot => ValidTokenV::Dot,
            ValidToken::Colon => ValidTokenV::Colon,
            ValidToken::SemiColon => ValidTokenV::SemiColon,
            ValidToken::Arrow => ValidTokenV::Arrow,
            ValidToken::DoubleArrow => ValidTokenV::DoubleArrow,
            ValidToken::Pipe => ValidTokenV::Pipe,
            ValidToken::Star => ValidTokenV::Star,
            ValidToken::Comma => ValidTokenV::Comma,
            ValidToken::LParen => ValidTokenV::LParen,
            ValidToken::RParen => ValidTokenV::RParen,
            ValidToken::LBrace => ValidTokenV::LBrace,
            ValidToken::RBrace => ValidTokenV::RBrace,
            ValidToken::LBracket => ValidTokenV::LBracket,
            ValidToken::RBracket => ValidTokenV::RBracket,
            ValidToken::Hashtag => ValidTokenV::Hashtag,
            ValidToken::Type => ValidTokenV::Type,
            ValidToken::Eq => ValidTokenV::Eq,
            ValidToken::Assign => ValidTokenV::Assign,
            ValidToken::Newline(i) => ValidTokenV::Newline(*i),
            ValidToken::Loop => ValidTokenV::Loop,
            ValidToken::While => ValidTokenV::While,
            ValidToken::For => ValidTokenV::For,
            ValidToken::Break => ValidTokenV::Break,
            ValidToken::Let => ValidTokenV::Let,
            ValidToken::In => ValidTokenV::In,
            ValidToken::Mod => ValidTokenV::Mod,
        }
    }
}

impl View for InertToken {
    type V = InertTokenV;

    open spec fn view(&self) -> InertTokenV {
        match self {
            InertToken::Comment(s) => InertTokenV::Comment(s@),
            InertToken::Space(n) => InertTokenV::Space(*n),
        }
    }
}

impl<I> View for GToken<I> {
    type V = GTokenV<I>;

    open spec fn view(&self) -> GTokenV<I> {
        match self {
            GToken::ValidToken(t) => GTokenV::ValidToken(t@),
            GToken::InertToken(t) => GTokenV::InertToken(t@),
            GToken::ErrorToken(e) => GTokenV::ErrorToken(*e),
        }
    }
}

/// The same token with another kind of indentation, for every token but a
/// line break, which records an indentation and has no counterpart.
pub open spec fn retag<A, B>(t: ValidTokenV<A>) -> Option<ValidTokenV<B>> {
    match t {
        ValidTokenV::Ident(s) => Some(ValidTokenV::Ident(s)),
        ValidTokenV::Number(s) => Some(ValidTokenV::Number(s)),
        ValidTokenV::String(s) => Some(ValidTokenV::String(s)),
        ValidTokenV::Def => Some(ValidTokenV::Def),
        ValidTokenV::Fn => Some(ValidTokenV::Fn),
        ValidTokenV::Dot => Some(ValidTokenV::Dot),
        ValidTokenV::Colon => Some(ValidTokenV::Colon),
        ValidTokenV::SemiColon => Some(ValidTokenV::SemiColon),
        ValidTokenV::Arrow => Some(ValidTokenV::Arrow),
        ValidTokenV::DoubleArrow => Some(ValidTokenV::DoubleArrow),
        ValidTokenV::Pipe => Some(ValidTokenV::Pipe),
        ValidTokenV::Star => Some(ValidTokenV::Star),
        ValidTokenV::Comma => Some(ValidTokenV::Comma),
        ValidTokenV::LParen => Some(ValidTokenV::LParen),
        ValidTokenV::RParen => Some(ValidTokenV::RParen),
        ValidTokenV::LBrace => Some(ValidTokenV::LBrace),
        ValidTokenV::RBrace => Some(ValidTokenV::RBrace),
        ValidTokenV::LBracket => Some(ValidTokenV::LBracket),
        ValidTokenV::RBracket => Some(ValidTokenV::RBracket),
        ValidTokenV::Hashtag => Some(ValidTokenV::Hashtag),
        ValidTokenV::Type => Some(ValidTokenV::Type),
        ValidTokenV::Eq => Some(ValidTokenV::Eq),
        ValidTokenV::Assign => Some(ValidTokenV::Assign),
        ValidTokenV::Loop => Some(ValidTokenV::Loop),
        ValidTokenV::While => Some(ValidTokenV::While),
        ValidTokenV::For => Some(ValidTokenV::For),
        ValidTokenV::Break => Some(ValidTokenV::Break),
        ValidTokenV::Let => Some(ValidTokenV::Let),
        ValidTokenV::In => Some(ValidTokenV::In),
        ValidTokenV::Mod => Some(ValidTokenV::Mod),
        ValidTokenV::Newline(_) => None,
    }
}

impl ValidToken<RelativeIndent> {
    /// A token with a tab count as its indentation, as one with a relative
    /// indentation; a line break has to be converted by comparing tab counts
    /// and is not accepted here.
    pub fn from_generic(tok: ValidToken<usize>) -> (r: Self)
        requires
            !(tok is Newline),
        ensures
            retag::<usize, RelativeIndent>(tok@) == Some(r@),
    {
        match tok {
            ValidToken::Ident(s) => ValidToken::Ident(s),
            ValidToken::Number(n) => ValidToken::Number(n),
            ValidToken::String(s) => ValidToken::String(s),
            ValidToken::Def => ValidToken::Def,
            ValidToken::Fn => ValidToken::Fn,
            ValidToken::Dot => ValidToken::Dot,
            ValidToken::Colon => ValidToken::Colon,
            ValidToken::SemiColon => ValidToken::SemiColon,
            ValidToken::Arrow => ValidToken::Arrow,
            ValidToken::DoubleArrow => ValidToken::DoubleArrow,
            ValidToken::Pipe => ValidToken::Pipe,
            ValidToken::Star => ValidToken::Star,
            ValidToken::Comma => ValidToken::Comma,
            ValidToken::LParen => ValidToken::LParen,
            ValidToken::RParen => ValidToken::RParen,
            ValidToken::LBrace => ValidToken::LBrace,
            ValidToken::RBrace => ValidToken::RBrace,
            ValidToken::LBracket => ValidToken::LBracket,
            ValidToken::RBracket => ValidToken::RBracket,
            ValidToken::Hashtag => ValidToken::Hashtag,
            ValidToken::Type => ValidToken::Type,
            ValidToken::Eq => ValidToken::Eq,
            ValidToken::Assign => ValidToken::Assign,
            ValidToken::Loop => ValidToken::Loop,
            ValidToken::While => ValidToken::While,
            ValidToken::For => ValidToken::For,
            ValidToken::Break => ValidToken::Break,
            ValidToken::Let => ValidToken::Let,
            ValidToken::In => ValidToken::In,
            ValidToken::Mod => ValidToken::Mod,
            ValidToken::Newline(_) => {
                proof {
                    assert(false);
                }
                ValidToken::Def
            },
        }
    }
}

/// Copies a valid token.
pub fn clone_token(t: &ValidToken<AbsoluteIndent>) -> (r: ValidToken<AbsoluteIndent>)
    ensures
        r@ == t@,
{
    match t {
        ValidToken::Ident(s) => ValidToken::Ident(s.clone()),
        ValidToken::Number(s) => ValidToken::Number(s.clone()),
        ValidToken::String(s) => ValidToken::String(s.clone()),
        ValidToken::Def => ValidToken::Def,
        ValidToken::Fn => ValidToken::Fn,
        ValidToken::Dot => ValidToken::Dot,
        ValidToken::Colon => ValidToken::Colon,
        ValidToken::SemiColon => ValidToken::SemiColon,
        ValidToken::Arrow => ValidToken::Arrow,
        ValidToken::DoubleArrow => ValidToken::DoubleArrow,
        ValidToken::Pipe => ValidToken::Pipe,
        ValidToken::Star => ValidToken::Star,
        ValidToken::Comma => ValidToken::Comma,
        ValidToken::LParen => ValidToken::LParen,
        ValidToken::RParen => ValidToken::RParen,
        ValidToken::LBrace => ValidToken::LBrace,
        ValidToken::RBrace => ValidToken::RBrace,
        ValidToken::LBracket => ValidToken::LBracket,
        ValidToken::RBracket => ValidToken::RBracket,
        ValidToken::Hashtag => ValidToken::Hashtag,
        ValidToken::Type => ValidToken::Type,
        ValidToken::Eq => ValidToken::Eq,
        ValidToken::Assign => ValidToken::Assign,
        ValidToken::Newline(i) => ValidToken::Newline(*i),
        ValidToken::Loop => ValidToken::Loop,
        ValidToken::While => ValidToken::While,
        ValidToken::For => ValidToken::For,
        ValidToken::Break => ValidToken::Break,
        ValidToken::Let => ValidToken::Let,
        ValidToken::In => ValidToken::In,
        ValidToken::Mod => ValidToken::Mod,
    }
}

/// The valid tokens among `toks`, in order.
pub open spec fn good_toks<I>(toks: Seq<GTokenV<I>>) -> Seq<ValidTokenV<I>>
    decreases toks.len(),
{
    if toks.len() == 0 {
        Seq::empty()
    } else {
        let rest = good_toks(toks.drop_last());
        match toks.last() {
            GTokenV::ValidToken(t) => rest.push(t),
            _ => rest,
        }
    }
}

/// The number of valid tokens among the first `n` of `toks`.
pub open spec fn count_valid<I>(toks: Seq<GTokenV<I>>, n: int) -> nat
    decreases n,
{
    if n <= 0 {
        0
    } else {
        count_valid(toks, n - 1) + if toks[n - 1] is ValidToken { 1nat } else { 0nat }
    }
}

pub open spec fn views_of<I>(toks: Seq<GToken<I>>) -> Seq<GTokenV<I>> {
    toks.map_values(|t: GToken<I>| t@)
}

pub open spec fn spanned_views<I>(toks: Seq<Spanned<GToken<I>>>) -> Seq<GTokenV<I>> {
    toks.map_values(|t: Spanned<GToken<I>>| t.0@)
}

/// The valid tokens of `toks`, in order.
pub fn extract_good_toks<T>(toks: Vec<GToken<T>>) -> (r: Vec<ValidToken<T>>)
    ensures
        r@.map_values(|t: ValidToken<T>| t@) == good_toks(views_of(toks@)),
{
    let mut r: Vec<ValidToken<T>> = Vec::new();
    let mut toks = toks;
    let ghost all = toks@;
    let mut rev: Vec<GToken<T>> = Vec::new();
    // take the tokens out back to front, then hand them out front to back
    while toks.len() > 0
        invariant
            all == toks@ + rev@.reverse(),
        decreases toks.len(),
    {
        let t = toks.pop().unwrap();
        proof {
            assert(toks@.push(t) + rev@.reverse() =~= toks@ + rev@.push(t).reverse());
        }
        rev.push(t);
    }
    assert(rev@.reverse() =~= all);
    let ghost n = all.len();
    while rev.len() > 0
        invariant
            rev@.len() <= n,
            n == all.len(),
            forall|k: int| 0 <= k < rev@.len() ==> #[trigger] rev@[k] == all[n - 1 - k],
            r@.map_values(|t: ValidToken<T>| t@) == good_toks(views_of(all.take(n - rev@.len()))),
        decreases rev.len(),
    {
        let ghost i = n - rev@.len();
        let t = rev.pop().unwrap();
        proof {
            assert(t == all[i]);
            assert(views_of(all.take(i + 1)).drop_last() =~= views_of(all.take(i)));
        }
        match t {
            GToken::ValidToken(v) => {
                r.push(v);
                proof {
                    assert(r@.map_values(|t: ValidToken<T>| t@) =~= good_toks(views_of(all.take(i))).push(v@));
                }
            },
            _ => {},
        }
    }
    assert(all.take(n as int) =~= all);
    r
}

/// The position among all tokens of the valid token numbered `n`.
pub open spec fn valid_pos<I>(ts: Seq<GTokenV<I>>, n: int) -> Option<int> {
    if exists|p: int| 0 <= p < ts.len() && #[trigger] ts[p] is ValidToken && count_valid(ts, p) == n {
        Some(choose|p: int| 0 <= p < ts.len() && #[trigger] ts[p] is ValidToken && count_valid(ts, p) == n)
    } else {
        None
    }
}

/// The positions among all tokens of the valid tokens numbered `span.0`
/// and `span.1`, when both exist and the first does not come after the
/// second.
pub open spec fn tok_span_spec<I>(ts: Seq<GTokenV<I>>, span: (usize, usize)) -> Option<(usize, usize)> {
    match (valid_pos(ts, span.0 as int), valid_pos(ts, span.1 as int)) {
        (Some(s), Some(e)) => if s <= e {
            Some((s as usize, e as usize))
        } else {
            None
        },
        _ => None,
    }
}

pub(crate) proof fn lemma_valid_pos_unique<I>(ts: Seq<GTokenV<I>>, p: int, n: int)
    requires
        0 <= p < ts.len(),
        ts[p] is ValidToken,
        count_valid(ts, p) == n,
    ensures
        valid_pos(ts, n) == Some(p),
{
    lemma_count_valid_mono(ts);
    let q = choose|q: int| 0 <= q < ts.len() && #[trigger] ts[q] is ValidToken && count_valid(ts, q) == n;
    assert(ts[p] is ValidToken);
    if q < p {
        assert(count_valid(ts, q) < count_valid(ts, p));
    } else if p < q {
        assert(count_valid(ts, p) < count_valid(ts, q));
    }
}

/// Numbering the valid tokens and looking a number up again agree: token
/// `n` is valid and numbered `k` among the valid tokens (what `map_index`
/// gives for it) exactly when the span of valid tokens `k..=k` stands at
/// `n..=n` among all tokens (what `tok_span_to_result_tok_span` gives).
pub proof fn lemma_map_index_round_trip<I>(ts: Seq<GTokenV<I>>, n: int, k: int)
    requires
        0 <= n < ts.len(),
        ts.len() <= usize::MAX,
        0 <= k <= usize::MAX,
    ensures
        (ts[n] is ValidToken && count_valid(ts, n) == k) <==> tok_span_spec(ts, (k as usize, k as usize))
            == Some((n as usize, n as usize)),
{
    if ts[n] is ValidToken && count_valid(ts, n) == k {
        lemma_valid_pos_unique(ts, n, k);
    }
    if tok_span_spec(ts, (k as usize, k as usize)) == Some((n as usize, n as usize)) {
        assert(valid_pos(ts, k) == Some(n));
    }
}

/// Where the valid tokens numbered `span.0` to `span.1` (counting valid
/// tokens only, both ends included) stand among all tokens, as
/// `tok_span_spec` says.
pub fn tok_span_to_result_tok_span<I>(span: (usize, usize), full_tokens: &Vec<Spanned<GToken<I>>>) -> (r: Option<(usize, usize)>)
    ensures
        r == tok_span_spec(spanned_views(full_tokens@), span),
{
    let r = tok_span_search(span, full_tokens);
    proof {
        let ts = spanned_views(full_tokens@);
        lemma_count_valid_mono(ts);
        match r {
            Some((s, e)) => {
                lemma_valid_pos_unique(ts, s as int, span.0 as int);
                lemma_valid_pos_unique(ts, e as int, span.1 as int);
            },
            None => {
                match (valid_pos(ts, span.0 as int), valid_pos(ts, span.1 as int)) {
                    (Some(s), Some(e)) => {
                        assert(ts[s] is ValidToken && count_valid(ts, s) == span.0);
                        assert(ts[e] is ValidToken && count_valid(ts, e) == span.1);
                        if s <= e {
                            assert(false);
                        }
                    },
                    _ => {},
                }
            },
        }
    }
    r
}

fn tok_span_search<I>(span: (usize, usize), full_tokens: &Vec<Spanned<GToken<I>>>) -> (r: Option<(usize, usize)>)
    ensures
        match r {
            Some((s, e)) => {
                let ts = spanned_views(full_tokens@);
                &&& s <= e < ts.len()
                &&& ts[s as int] is ValidToken && count_valid(ts, s as int) == span.0
                &&& ts[e as int] is ValidToken && count_valid(ts, e as int) == span.1
            },
            None => {
                let ts = spanned_views(full_tokens@);
                !(exists|s: int, e: int| #![trigger ts[s], ts[e]] 0 <= s <= e < ts.len() && ts[s] is ValidToken
                    && count_valid(ts, s) == span.0 && ts[e] is ValidToken && count_valid(ts, e) == span.1)
            },
        },
{
    let ghost ts = spanned_views(full_tokens@);
    let mut ok_count: usize = 0;
    let mut start_idx: Option<usize> = None;
    let mut end_idx: Option<usize> = None;
    let mut i: usize = 0;
    while i < full_tokens.len()
        invariant_except_break
            i <= full_tokens.len(),
            ok_count == count_valid(ts, i as int),
            ok_count <= span.1,
            end_idx is None,
            start_idx is None ==> ok_count <= span.0,
        invariant
            ts == spanned_views(full_tokens@),
            start_idx matches Some(s) ==> s < full_tokens@.len() && ts[s as int] is ValidToken
                && count_valid(ts, s as int) == span.0 && s <= i,
        ensures
            end_idx matches Some(e) ==> e < full_tokens@.len() && ts[e as int] is ValidToken
                && count_valid(ts, e as int) == span.1
                && (start_idx matches Some(s) ==> s <= e)
                && (start_idx is None ==> span.1 < span.0),
            end_idx is None ==> count_valid(ts, ts.len() as int) <= span.1,
        decreases full_tokens.len() - i,
    {
        proof {
            assert(ts[i as int] == full_tokens@[i as int].0@);
        }
        if matches!(full_tokens[i].0, GToken::ValidToken(_)) {
            if ok_count == span.0 {
                start_idx = Some(i);
            }
            if ok_count == span.1 {
                end_idx = Some(i);
                break;
            }
            ok_count = ok_count + 1;
        }
        i = i + 1;
    }
    proof {
        lemma_count_valid_mono(ts);
    }
    match (start_idx, end_idx) {
        (Some(s), Some(e)) => Some((s, e)),
        _ => None,
    }
}

proof fn lemma_count_valid_prefix<I>(ts: Seq<GTokenV<I>>, n: int)
    requires
        0 <= n < ts.len(),
    ensures
        count_valid(ts.drop_last(), n) == count_valid(ts, n),
    decreases n,
{
    if n > 0 {
        lemma_count_valid_prefix(ts, n - 1);
        assert(ts.drop_last()[n - 1] == ts[n - 1]);
    }
}

/// The valid tokens that `good_toks` keeps are numbered as `count_valid`
/// numbers them: there are `count_valid(ts, ts.len())` of them, and a valid
/// token at position `n` is the one numbered `count_valid(ts, n)`. So what
/// `map_index` gives for position `n` indexes the extracted valid tokens at
/// token `n`.
pub proof fn lemma_good_toks_numbering<I>(ts: Seq<GTokenV<I>>)
    ensures
        good_toks(ts).len() == count_valid(ts, ts.len() as int),
        forall|n: int|
            0 <= n < ts.len() && ts[n] is ValidToken ==> count_valid(ts, n) < good_toks(ts).len()
                && good_toks(ts)[count_valid(ts, n) as int] == ts[n]->ValidToken_0,
    decreases ts.len(),
{
    if ts.len() > 0 {
        let d = ts.drop_last();
        lemma_good_toks_numbering(d);
        let k = ts.len() - 1;
        lemma_count_valid_prefix(ts, k);
        assert(ts.last() == ts[k]);
        assert forall|n: int| 0 <= n < ts.len() && ts[n] is ValidToken implies count_valid(ts, n)
            < good_toks(ts).len() && good_toks(ts)[count_valid(ts, n) as int] == ts[n]->ValidToken_0 by {
            if n < k {
                lemma_count_valid_prefix(ts, n);
                assert(d[n] == ts[n]);
            }
        }
    }
}

/// A span of valid tokens is found exactly when it is not reversed and its
/// last token exists: `tok_span_spec` gives positions for `a..=b` if and
/// only if `a <= b` and `b` is below the number of valid tokens, and then
/// they are the positions of the valid tokens numbered `a` and `b`.
pub proof fn lemma_tok_span_found<I>(ts: Seq<GTokenV<I>>, a: usize, b: usize)
    requires
        ts.len() <= usize::MAX,
    ensures
        tok_span_spec(ts, (a, b)) is Some <==> a <= b && b < count_valid(ts, ts.len() as int),
        tok_span_spec(ts, (a, b)) matches Some((s, e)) ==> s <= e < ts.len() && ts[s as int] is ValidToken
            && count_valid(ts, s as int) == a && ts[e as int] is ValidToken && count_valid(ts, e as int) == b,
{
    lemma_count_valid_mono(ts);
    if a <= b && b < count_valid(ts, ts.len() as int) {
        let p = lemma_valid_exists(ts, a as int, ts.len() as int);
        let q = lemma_valid_exists(ts, b as int, ts.len() as int);
        lemma_valid_pos_unique(ts, p, a as int);
        lemma_valid_pos_unique(ts, q, b as int);
        if q < p {
            assert(count_valid(ts, q) < count_valid(ts, p));
        }
    }
    if tok_span_spec(ts, (a, b)) is Some {
        let s = valid_pos(ts, a as int).unwrap();
        let e = valid_pos(ts, b as int).unwrap();
        assert(0 <= s < ts.len() && ts[s] is ValidToken && count_valid(ts, s) == a);
        assert(0 <= e < ts.len() && ts[e] is ValidToken && count_valid(ts, e) == b);
        assert(count_valid(ts, e) < count_valid(ts, ts.len() as int));
    }
}

proof fn lemma_valid_exists<I>(ts: Seq<GTokenV<I>>, a: int, n: int) -> (p: int)
    requires
        0 <= n <= ts.len(),
        0 <= a < count_valid(ts, n),
    ensures
        0 <= p < n,
        ts[p] is ValidToken,
        count_valid(ts, p) == a,
    decreases n,
{
    if a < count_valid(ts, n - 1) {
        lemma_valid_exists(ts, a, n - 1)
    } else {
        n - 1
    }
}

/// `count_valid` grows by one exactly at valid tokens.
pub proof fn lemma_count_valid_mono<I>(ts: Seq<GTokenV<I>>)
    ensures
        forall|a: int, b: int| 0 <= a <= b <= ts.len() ==> #[trigger] count_valid(ts, a) <= #[trigger] count_valid(ts, b),
        forall|a: int, b: int| #![trigger count_valid(ts, a), count_valid(ts, b)] 0 <= a < b <= ts.len() && ts[a] is ValidToken
            ==> count_valid(ts, a) < count_valid(ts, b),
    decreases ts.len(),
{
    assert forall|a: int, b: int| 0 <= a <= b <= ts.len() implies #[trigger] count_valid(ts, a) <= #[trigger] count_valid(ts, b) by {
        lemma_count_valid_le(ts, a, b);
    }
    assert forall|a: int, b: int| #![trigger count_valid(ts, a), count_valid(ts, b)] 0 <= a < b <= ts.len() && ts[a] is ValidToken
        implies count_valid(ts, a) < count_valid(ts, b) by {
        lemma_count_valid_le(ts, a + 1, b);
    }
}

proof fn lemma_count_valid_le<I>(ts: Seq<GTokenV<I>>, a: int, b: int)
    requires
        0 <= a <= b,
    ensures
        count_valid(ts, a) <= count_valid(ts, b),
    decreases b - a,
{
    if a < b {
        lemma_count_valid_le(ts, a, b - 1);
    }
}

/// The valid tokens of a spanned token list, in order.
pub fn valid_tokens(toks: &Vec<Spanned<GToken<AbsoluteIndent>>>) -> (r: Vec<ValidToken<AbsoluteIndent>>)
    ensures
        r@.map_values(|t: ValidToken<AbsoluteIndent>| t@) == good_toks(spanned_views(toks@)),
{
    let ghost ts = spanned_views(toks@);
    let mut r: Vec<ValidToken<AbsoluteIndent>> = Vec::new();
    let mut i: usize = 0;
    while i < toks.len()
        invariant
            i <= toks@.len(),
            ts == spanned_views(toks@),
            r@.map_values(|t: ValidToken<AbsoluteIndent>| t@) == good_toks(ts.take(i as int)),
        decreases toks@.len() - i,
    {
        proof {
            assert(ts.take(i + 1).drop_last() =~= ts.take(i as int));
            assert(ts.take(i + 1).last() == toks@[i as int].0@);
        }
        match &toks[i].0 {
            GToken::ValidToken(v) => {
                let c = clone_token(v);
                let ghost before = r@;
                r.push(c);
                proof {
                    assert(r@.map_values(|t: ValidToken<AbsoluteIndent>| t@) =~= before.map_values(
                        |t: ValidToken<AbsoluteIndent>| t@,
                    ).push(v@));
                }
            },
            _ => {},
        }
        i = i + 1;
    }
    assert(ts.take(toks@.len() as int) =~= ts);
    r
}

/// The invalid characters of a token list with their regions, in order.
pub open spec fn error_tokens_spec<I>(toks: Seq<Spanned<GToken<I>>>) -> Seq<(ErrorToken, Span)>
    decreases toks.len(),
{
    if toks.len() == 0 {
        Seq::empty()
    } else {
        let rest = error_tokens_spec(toks.drop_last());
        match toks.last().0 {
            GToken::ErrorToken(e) => rest.push((e, toks.last().1)),
            _ => rest,
        }
    }
}

/// The invalid characters of a token list with their regions, in order.
pub fn error_tokens<I>(toks: &Vec<Spanned<GToken<I>>>) -> (r: Vec<(ErrorToken, Span)>)
    ensures
        r@ == error_tokens_spec(toks@),
{
    let mut r: Vec<(ErrorToken, Span)> = Vec::new();
    let mut i: usize = 0;
    while i < toks.len()
        invariant
            i <= toks@.len(),
            r@ == error_tokens_spec(toks@.take(i as int)),
        decreases toks@.len() - i,
    {
        proof {
            assert(toks@.take(i + 1).drop_last() =~= toks@.take(i as int));
        }
        match &toks[i].0 {
            GToken::ErrorToken(e) => {
                r.push((*e, toks[i].1));
            },
            _ => {},
        }
        i = i + 1;
    }
    assert(toks@.take(toks@.len() as int) =~= toks@);
    r
}

/// The source region from the start of token `span.0` to the end of token
/// `span.1`; `None` when either is not a token of `toks`.
pub fn result_tok_span_to_char_span<I>(span: (usize, usize), toks: &Vec<Spanned<GToken<I>>>) -> (r: Option<Span>)
    ensures
        r is Some <==> span.0 < toks@.len() && span.1 < toks@.len(),
        r matches Some(s) ==> s.start == toks@[span.0 as int].1.start && s.end == toks@[span.1 as int].1.end,
{
    if span.0 < toks.len() && span.1 < toks.len() {
        Some(Span { start: toks[span.0].1.start, end: toks[span.1].1.end })
    } else {
        None
    }
}

} // verus!
