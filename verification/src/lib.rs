pub mod expr;
pub mod eval;
pub mod helper;
pub mod types;
pub mod text;
pub mod printer;
pub mod cache;
pub mod tokens;
pub mod lexer;
pub mod diagnostics;
pub mod ast;
pub mod parser;
pub mod parse_shape;
pub mod desugar;
pub mod name_resolver;
pub mod positions;
pub mod defs;
pub mod ide;
pub mod display;
pub mod lower;
pub mod experimental;

use std::rc::Rc;
use vstd::prelude::*;
use vstd::utf8::encode_utf8;

use crate::ast::{AstKind, AstV, FixAst, SAstV, SpannedFixAst, clone_sast, sasts_v, unspan};
use crate::desugar::{LTm, SpannedNamedExpr, clone_spanned, desugar, desugar_s, remove_span_expr, strip, try_desugar};
use crate::expr::{Expr, ExprError, ExprErrorV, NamedExpr, Term, VarKind};
use crate::lexer::{byte_pos, lex, lexer, spanned_token_views};
use crate::name_resolver::{to_indices_spec, to_indices_unspanned};
use crate::parser::{parse, parse_spec, tokens_v, try_parse};
use crate::positions::{LineRange, line_offset_spec, loc_at, loc_at_spec, range_to_line_offset_range, span_at_list, straverse_list};
use crate::tokens::{
    AbsoluteIndent, GTokenV, Spanned, Token, good_toks, result_tok_span_to_char_span, spanned_views, tok_span_spec,
    tok_span_to_result_tok_span, valid_tokens, ValidTokenV,
};
use crate::types::{TypeError, TypeErrorV, ctx_view, errors_view, infer_spec, infer_type};

verus! {

/// Following a path from the root of a tree to one of its nodes.
pub trait Traverse: Sized {
    type Span;

    /// The node at `span` below `self`; `None` when the path leads nowhere.
    fn traverse(self, span: Self::Span) -> Option<Box<Self>>;
}

/// Desugaring into the core calculus with named variables.
pub trait DesugarWithNames {
    fn desugar_with_names(&self) -> NamedExpr;
}

/// Desugaring into the core calculus with de Bruijn indices.
pub trait Desugar {
    fn desugar(&self) -> Expr;
}

/// An error that knows where it happened.
pub trait CompileError<S> {
    fn span(&self) -> S;
}


// ---------------------------------------------------------------------------
// The whole pipeline
// ---------------------------------------------------------------------------

/// The tokens of a source text, without their regions.
pub open spec fn lexed(file: Seq<char>) -> Seq<GTokenV<AbsoluteIndent>> {
    lex(file).map_values(|t: (GTokenV<AbsoluteIndent>, nat, nat)| t.0)
}

/// The definitions parsed from a source text.
pub open spec fn parsed(file: Seq<char>) -> Option<Seq<SAstV>> {
    parse_spec(good_toks(lexed(file)))
}

/// The definitions of a file read as one tuple: definition `i` sits at
/// path `[i]`.
pub open spec fn module_of(defs: Seq<SAstV>) -> AstV {
    AstV { kind: AstKind::Tuple, items: Seq::new(defs.len(), |i: int| unspan(defs[i])) }
}

/// The lines and columns of the surface node at `loc`: its first and last
/// token found among all tokens, the start of the first and the end of the
/// last in bytes, and those bytes as lines and columns.
pub open spec fn source_range(file: Seq<char>, defs: Seq<SAstV>, loc: Seq<usize>) -> Option<LineRange> {
    match straverse_list(defs, loc) {
        None => None,
        Some(node) => match tok_span_spec(lexed(file), (node.start as usize, node.end as usize)) {
            None => None,
            Some((s, e)) => {
                let toks = lex(file);
                if s < toks.len() && e < toks.len() {
                    match (
                        line_offset_spec(encode_utf8(file), toks[s as int].1 as int),
                        line_offset_spec(encode_utf8(file), toks[e as int].2 as int),
                    ) {
                        (Some(a), Some(b)) => Some((a, b)),
                        _ => None,
                    }
                } else {
                    None
                }
            },
        },
    }
}

/// The lines and columns of the node at `path` of the desugared tree.
pub open spec fn path_range(file: Seq<char>, defs: Seq<SAstV>, named: LTm, path: Seq<usize>) -> Option<LineRange> {
    match loc_at_spec(named, path, 0) {
        Some(loc) => source_range(file, defs, loc),
        None => None,
    }
}

/// An error of the desugaring with its place in the source.
pub enum PlacedErrorV {
    MissingBinder(Option<LineRange>),
    MissingValue(Option<LineRange>),
    MissingType(Option<LineRange>),
    InvalidBinder(Option<LineRange>),
    InvalidBinderName(Option<LineRange>),
    InvalidBinderParam(Option<LineRange>),
    ArbitraryBinding(Option<LineRange>),
    ArbitraryAnn(Option<LineRange>),
    ResolveFailed(Seq<char>, Seq<usize>, Seq<VarKind<Seq<char>, Seq<char>>>),
    Unknown,
}

impl View for ExprError<Option<LineRange>> {
    type V = PlacedErrorV;

    open spec fn view(&self) -> PlacedErrorV {
        match self {
            ExprError::MissingBinder(p) => PlacedErrorV::MissingBinder(*p),
            ExprError::MissingValue(p) => PlacedErrorV::MissingValue(*p),
            ExprError::MissingType(p) => PlacedErrorV::MissingType(*p),
            ExprError::InvalidBinder(p) => PlacedErrorV::InvalidBinder(*p),
            ExprError::InvalidBinderName(p) => PlacedErrorV::InvalidBinderName(*p),
            ExprError::InvalidBinderParam(p) => PlacedErrorV::InvalidBinderParam(*p),
            ExprError::ArbitraryBinding(p) => PlacedErrorV::ArbitraryBinding(*p),
            ExprError::ArbitraryAnn(p) => PlacedErrorV::ArbitraryAnn(*p),
            ExprError::ResolveFailed(s, p, ctx) => PlacedErrorV::ResolveFailed(
                s@,
                p@,
                ctx@.map_values(|k: VarKind<String, String>| k@),
            ),
            ExprError::Unknown => PlacedErrorV::Unknown,
        }
    }
}

/// The error with each path replaced by its place in the source.
pub open spec fn place_error(e: ExprErrorV, file: Seq<char>, defs: Seq<SAstV>) -> PlacedErrorV {
    match e {
        ExprErrorV::MissingBinder(p) => PlacedErrorV::MissingBinder(source_range(file, defs, p)),
        ExprErrorV::MissingValue(p) => PlacedErrorV::MissingValue(source_range(file, defs, p)),
        ExprErrorV::MissingType(p) => PlacedErrorV::MissingType(source_range(file, defs, p)),
        ExprErrorV::InvalidBinder(p) => PlacedErrorV::InvalidBinder(source_range(file, defs, p)),
        ExprErrorV::InvalidBinderName(p) => PlacedErrorV::InvalidBinderName(source_range(file, defs, p)),
        ExprErrorV::InvalidBinderParam(p) => PlacedErrorV::InvalidBinderParam(source_range(file, defs, p)),
        ExprErrorV::ArbitraryBinding(p) => PlacedErrorV::ArbitraryBinding(source_range(file, defs, p)),
        ExprErrorV::ArbitraryAnn(p) => PlacedErrorV::ArbitraryAnn(source_range(file, defs, p)),
        ExprErrorV::ResolveFailed(s, p, ctx) => PlacedErrorV::ResolveFailed(s, p, ctx),
        ExprErrorV::Unknown => PlacedErrorV::Unknown,
    }
}

/// A type error with its place in the source.
pub enum PlacedTypeErrorV {
    UnboundVariable(Term, Option<LineRange>, Seq<Term>),
    TypeMismatch { expected: (Term, Option<LineRange>), found: (Term, Option<LineRange>) },
    NotAFunction(Term, Option<LineRange>),
    NotAType(Term, Option<LineRange>),
    Unknown(Term, Option<LineRange>),
}

impl View for TypeError<(Expr, Option<LineRange>)> {
    type V = PlacedTypeErrorV;

    open spec fn view(&self) -> PlacedTypeErrorV {
        match self {
            TypeError::UnboundVariable(l, ctx) => PlacedTypeErrorV::UnboundVariable(l.0@, l.1, ctx_view(ctx@)),
            TypeError::TypeMismatch { expected, found } => PlacedTypeErrorV::TypeMismatch {
                expected: (expected.0@, expected.1),
                found: (found.0@, found.1),
            },
            TypeError::NotAFunction(l) => PlacedTypeErrorV::NotAFunction(l.0@, l.1),
            TypeError::NotAType(l) => PlacedTypeErrorV::NotAType(l.0@, l.1),
            TypeError::Unknown(l) => PlacedTypeErrorV::Unknown(l.0@, l.1),
        }
    }
}

/// The type error with each path replaced by its place in the source.
pub open spec fn place_type_error(e: TypeErrorV, file: Seq<char>, defs: Seq<SAstV>, named: LTm) -> PlacedTypeErrorV {
    match e {
        TypeErrorV::UnboundVariable(t, p, ctx) => PlacedTypeErrorV::UnboundVariable(t, path_range(file, defs, named, p), ctx),
        TypeErrorV::TypeMismatch { expected, found } => PlacedTypeErrorV::TypeMismatch {
            expected: (expected.0, path_range(file, defs, named, expected.1)),
            found: (found.0, path_range(file, defs, named, found.1)),
        },
        TypeErrorV::NotAFunction(t, p) => PlacedTypeErrorV::NotAFunction(t, path_range(file, defs, named, p)),
        TypeErrorV::NotAType(t, p) => PlacedTypeErrorV::NotAType(t, path_range(file, defs, named, p)),
        TypeErrorV::Unknown(t, p) => PlacedTypeErrorV::Unknown(t, path_range(file, defs, named, p)),
    }
}

/// The core term of a desugared file.
pub open spec fn core_term(named: LTm) -> Term {
    to_indices_spec(strip(named), Seq::empty(), Seq::empty())
}

/// The type errors of a core term: the recoverable ones in order, then the
/// one that stopped the inference, if any.
pub open spec fn type_errors(t: Term) -> Seq<TypeErrorV> {
    let (errs, res) = infer_spec(t, Seq::empty(), Seq::empty()).unwrap();
    match res {
        Ok(_) => errs,
        Err(e) => errs.push(e),
    }
}

/// The inputs on which the pipeline runs to the end: the byte offsets fit
/// in memory, the parentheses of each definition match, the desugaring
/// meets only supported constructs, and the type inference terminates.
pub open spec fn compile_ok(file: Seq<char>) -> bool {
    &&& byte_pos(file, file.len() as int) <= usize::MAX
    &&& parsed(file) is Some
    &&& desugar_s(module_of(parsed(file).unwrap()), Seq::empty()) is Some
    &&& (desugar_s(module_of(parsed(file).unwrap()), Seq::empty()).unwrap() matches Ok(named)
        ==> infer_spec(core_term(named), Seq::empty(), Seq::empty()) is Some)
}

/// What `compile` gives for a file: the desugaring error placed in the
/// source, or the core term with its placed type errors.
pub open spec fn compile_spec(file: Seq<char>) -> Result<(Term, Seq<PlacedTypeErrorV>), PlacedErrorV> {
    let defs = parsed(file).unwrap();
    match desugar_s(module_of(defs), Seq::empty()).unwrap() {
        Err(e) => Err(place_error(e, file, defs)),
        Ok(named) => {
            let t = core_term(named);
            Ok((t, type_errors(t).map_values(|e: TypeErrorV| place_type_error(e, file, defs, named))))
        },
    }
}

/// The lines and columns of the surface node at `loc`.
fn locate(loc: &Vec<usize>, defs: &Vec<SpannedFixAst>, toks: &Vec<Spanned<Token>>, file: &str) -> (r: Option<LineRange>)
    requires
        spanned_token_views(toks@) == lex(file@),
    ensures
        r == source_range(file@, sasts_v(defs@), loc@),
{
    proof {
        assert(spanned_views(toks@) =~= lexed(file@));
    }
    let (s, e) = match span_at_list(defs, loc) {
        Some(x) => x,
        None => {
            return None;
        },
    };
    let (ps, pe) = match tok_span_to_result_tok_span((s, e), toks) {
        Some(x) => x,
        None => {
            return None;
        },
    };
    let sp = match result_tok_span_to_char_span((ps, pe), toks) {
        Some(x) => x,
        None => {
            return None;
        },
    };
    proof {
        assert(lex(file@)[ps as int] == spanned_token_views(toks@)[ps as int]);
        assert(lex(file@)[pe as int] == spanned_token_views(toks@)[pe as int]);
    }
    range_to_line_offset_range(sp, file)
}

fn locate_path(path: &Vec<usize>, named: &SpannedNamedExpr, defs: &Vec<SpannedFixAst>, toks: &Vec<Spanned<Token>>, file: &str) -> (r: Option<LineRange>)
    requires
        spanned_token_views(toks@) == lex(file@),
    ensures
        r == path_range(file@, sasts_v(defs@), named@, path@),
{
    match loc_at(named, path, 0) {
        Some(loc) => locate(&loc, defs, toks, file),
        None => None,
    }
}

fn place_expr_error(e: ExprError<Vec<usize>>, defs: &Vec<SpannedFixAst>, toks: &Vec<Spanned<Token>>, file: &str) -> (r: ExprError<Option<LineRange>>)
    requires
        spanned_token_views(toks@) == lex(file@),
    ensures
        r@ == place_error(e@, file@, sasts_v(defs@)),
{
    match e {
        ExprError::MissingBinder(p) => ExprError::MissingBinder(locate(&p, defs, toks, file)),
        ExprError::MissingValue(p) => ExprError::MissingValue(locate(&p, defs, toks, file)),
        ExprError::MissingType(p) => ExprError::MissingType(locate(&p, defs, toks, file)),
        ExprError::InvalidBinder(p) => ExprError::InvalidBinder(locate(&p, defs, toks, file)),
        ExprError::InvalidBinderName(p) => ExprError::InvalidBinderName(locate(&p, defs, toks, file)),
        ExprError::InvalidBinderParam(p) => ExprError::InvalidBinderParam(locate(&p, defs, toks, file)),
        ExprError::ArbitraryBinding(p) => ExprError::ArbitraryBinding(locate(&p, defs, toks, file)),
        ExprError::ArbitraryAnn(p) => ExprError::ArbitraryAnn(locate(&p, defs, toks, file)),
        ExprError::ResolveFailed(s, p, ctx) => ExprError::ResolveFailed(s, p, ctx),
        ExprError::Unknown => ExprError::Unknown,
    }
}

fn place_type_error_exec(
    e: TypeError<(Expr, Vec<usize>)>,
    named: &SpannedNamedExpr,
    defs: &Vec<SpannedFixAst>,
    toks: &Vec<Spanned<Token>>,
    file: &str,
) -> (r: TypeError<(Expr, Option<LineRange>)>)
    requires
        spanned_token_views(toks@) == lex(file@),
    ensures
        r@ == place_type_error(e@, file@, sasts_v(defs@), named@),
{
    match e {
        TypeError::UnboundVariable((t, p), ctx) => TypeError::UnboundVariable((t, locate_path(&p, named, defs, toks, file)), ctx),
        TypeError::TypeMismatch { expected, found } => {
            let (te, pe) = expected;
            let (tf, pf) = found;
            let le = locate_path(&pe, named, defs, toks, file);
            let lf = locate_path(&pf, named, defs, toks, file);
            TypeError::TypeMismatch { expected: (te, le), found: (tf, lf) }
        },
        TypeError::NotAFunction((t, p)) => TypeError::NotAFunction((t, locate_path(&p, named, defs, toks, file))),
        TypeError::NotAType((t, p)) => TypeError::NotAType((t, locate_path(&p, named, defs, toks, file))),
        TypeError::Unknown((t, p)) => TypeError::Unknown((t, locate_path(&p, named, defs, toks, file))),
    }
}

/// The file read as one tuple of its definitions.
fn module_exec(defs: &Vec<SpannedFixAst>) -> (r: FixAst)
    ensures
        r@ == module_of(sasts_v(defs@)),
{
    let mut items: Vec<FixAst> = Vec::new();
    let mut i: usize = 0;
    while i < defs.len()
        invariant
            i <= defs@.len(),
            items@.len() == i,
            forall|j: int| 0 <= j < i ==> (#[trigger] items@[j])@ == unspan(defs@[j]@),
        decreases defs@.len() - i,
    {
        items.push(clone_sast(&defs[i]).remove_span());
        i = i + 1;
    }
    let ghost iv = items@;
    let r = FixAst::Tuple(items);
    proof {
        let m = module_of(sasts_v(defs@));
        assert(r@.items == crate::ast::asts_v(iv));
        assert(m.items.len() == iv.len());
        assert forall|j: int| 0 <= j < iv.len() implies crate::ast::asts_v(iv)[j] == m.items[j] by {
            assert(sasts_v(defs@)[j] == defs@[j]@);
            assert(crate::ast::asts_v(iv)[j] == iv[j]@);
        }
        assert(r@.items =~= m.items);
    }
    r
}

/// Runs the whole pipeline on a source text: lexing, parsing, desugaring
/// the definitions as one tuple, name resolution and type inference. The
/// result is the core term with its type errors, each with its place in
/// the source, or the desugaring error with its place.
pub fn compile(file: String) -> (r: Result<(Expr, Vec<TypeError<(Expr, Option<LineRange>)>>), ExprError<Option<LineRange>>>)
    requires
        compile_ok(file@),
    ensures
        match (r, compile_spec(file@)) {
            (Ok((e, errs)), Ok((t, perrs))) => e@ == t && errs@.map_values(|x: TypeError<(Expr, Option<LineRange>)>| x@) == perrs,
            (Err(x), Err(y)) => x@ == y,
            _ => false,
        },
{
    let text = file.as_str();
    let toks = lexer(text);
    let good = valid_tokens(&toks);
    proof {
        assert(spanned_views(toks@) =~= lexed(file@));
        assert(tokens_v(good@) == good_toks(lexed(file@)));
    }
    let defs = parse(good);
    let ghost dv = sasts_v(defs@);
    let module = module_exec(&defs);
    let named = match desugar(module, Vec::new()) {
        Err(e) => {
            return Err(place_expr_error(e, &defs, &toks, text));
        },
        Ok(n) => n,
    };
    let named_expr = remove_span_expr(clone_spanned(&named));
    let expr = to_indices_unspanned(&named_expr);
    let mut ty_errors: Vec<TypeError<(Expr, Vec<usize>)>> = Vec::new();
    let ctx: Vec<Rc<Expr>> = Vec::new();
    proof {
        assert(ctx_view(ctx@) =~= Seq::<Term>::empty());
        assert(errors_view(ty_errors@) =~= Seq::<TypeErrorV>::empty());
    }
    let res = infer_type(&expr, ctx, &mut ty_errors, Vec::new());
    match res {
        Ok(_) => {},
        Err(err) => {
            let ghost before = ty_errors@;
            ty_errors.push(err);
            proof {
                assert(errors_view(ty_errors@) =~= errors_view(before).push(err@));
            }
        },
    }
    let ghost ev = errors_view(ty_errors@);
    let mut placed: Vec<TypeError<(Expr, Option<LineRange>)>> = Vec::new();
    let mut rev: Vec<TypeError<(Expr, Vec<usize>)>> = Vec::new();
    let ghost orig = ty_errors@;
    while ty_errors.len() > 0
        invariant
            orig == ty_errors@ + rev@.reverse(),
        decreases ty_errors@.len(),
    {
        let x = ty_errors.pop().unwrap();
        proof {
            assert(ty_errors@.push(x) + rev@.reverse() =~= ty_errors@ + rev@.push(x).reverse());
        }
        rev.push(x);
    }
    assert(rev@.reverse() =~= orig);
    let n = rev.len();
    while rev.len() > 0
        invariant
            n == orig.len(),
            ev == errors_view(orig),
            rev@.len() + placed@.len() == n,
            text@ == file@,
            spanned_token_views(toks@) == lex(file@),
            forall|k: int| 0 <= k < rev@.len() ==> #[trigger] rev@[k] == orig[n - 1 - k],
            forall|i: int| 0 <= i < placed@.len() ==> (#[trigger] placed@[i])@ == place_type_error(ev[i], file@, sasts_v(defs@), named@),
        decreases rev@.len(),
    {
        let ghost i = placed@.len();
        let x = rev.pop().unwrap();
        proof {
            assert(x == orig[i as int]);
            assert(ev[i as int] == x@);
        }
        placed.push(place_type_error_exec(x, &named, &defs, &toks, text));
    }
    proof {
        assert(placed@.map_values(|x: TypeError<(Expr, Option<LineRange>)>| x@) =~= ev.map_values(
            |e: TypeErrorV| place_type_error(e, file@, dv, named@),
        ));
    }
    Ok((expr, placed))
}

/// The named expression of a file: lexing, parsing and desugaring of its
/// definitions as one tuple; the desugaring error with its place otherwise.
pub fn get_named_expr(file: String) -> (r: Result<NamedExpr, ExprError<Option<LineRange>>>)
    requires
        byte_pos(file@, file@.len() as int) <= usize::MAX,
        parsed(file@) is Some,
        desugar_s(module_of(parsed(file@).unwrap()), Seq::empty()) is Some,
    ensures
        match (r, desugar_s(module_of(parsed(file@).unwrap()), Seq::empty()).unwrap()) {
            (Ok(e), Ok(named)) => e@ == strip(named),
            (Err(x), Err(y)) => x@ == place_error(y, file@, parsed(file@).unwrap()),
            _ => false,
        },
{
    let text = file.as_str();
    let toks = lexer(text);
    let good = valid_tokens(&toks);
    proof {
        assert(spanned_views(toks@) =~= lexed(file@));
        assert(tokens_v(good@) == good_toks(lexed(file@)));
    }
    let defs = parse(good);
    let module = module_exec(&defs);
    match desugar(module, Vec::new()) {
        Err(e) => Err(place_expr_error(e, &defs, &toks, text)),
        Ok(n) => Ok(remove_span_expr(n)),
    }
}

/// The tokens of a file that carry meaning for the parser: its valid
/// tokens other than line breaks, without their positions.
pub open spec fn significant_tokens(file: Seq<char>) -> Seq<ValidTokenV<AbsoluteIndent>> {
    crate::parse_shape::labels(crate::parser::non_newlines(good_toks(lexed(file))))
}

/// The named expression of a file depends on its significant tokens alone:
/// two files that differ only in spaces, comments, invalid characters or
/// line breaks both parse or both fail, to the same module once spans are
/// dropped, and so desugar alike; where `get_named_expr` gives an
/// expression for one, it gives the same for the other.
pub proof fn lemma_named_expr_from_significant_tokens(f1: Seq<char>, f2: Seq<char>)
    requires
        significant_tokens(f1) == significant_tokens(f2),
    ensures
        (parsed(f1) is Some) == (parsed(f2) is Some),
        parsed(f1) is Some ==> module_of(parsed(f1).unwrap()) == module_of(parsed(f2).unwrap()),
        parsed(f1) is Some ==> desugar_s(module_of(parsed(f1).unwrap()), Seq::empty()) == desugar_s(
            module_of(parsed(f2).unwrap()),
            Seq::empty(),
        ),
{
    crate::parse_shape::lemma_parse_ignores_positions(good_toks(lexed(f1)), good_toks(lexed(f2)));
    if parsed(f1) is Some {
        let d1 = parsed(f1).unwrap();
        let d2 = parsed(f2).unwrap();
        let u1 = crate::parse_shape::unspans(d1);
        let u2 = crate::parse_shape::unspans(d2);
        assert(d1.len() == u1.len() && d2.len() == u2.len());
        assert(module_of(d1).items =~= module_of(d2).items) by {
            assert forall|i: int| 0 <= i < d1.len() implies module_of(d1).items[i] == module_of(d2).items[i] by {
                assert(u1[i] == u2[i]);
            }
        }
    }
}

/// Whether `compile` and `get_named_expr` reach the end of the desugaring
/// on `file`: the parentheses of each definition match and the desugaring
/// meets only supported constructs.
pub fn compile_supported(file: &String) -> (b: bool)
    requires
        byte_pos(file@, file@.len() as int) <= usize::MAX,
    ensures
        b == (parsed(file@) is Some && desugar_s(module_of(parsed(file@).unwrap()), Seq::empty()) is Some),
{
    let text = file.as_str();
    let toks = lexer(text);
    let good = valid_tokens(&toks);
    proof {
        assert(spanned_views(toks@) =~= lexed(file@));
        assert(tokens_v(good@) == good_toks(lexed(file@)));
    }
    match try_parse(&good) {
        None => false,
        Some(defs) => {
            let module = module_exec(&defs);
            try_desugar(&module, &Vec::new()).is_some()
        },
    }
}

} // verus!
