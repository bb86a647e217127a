//! Texts of tokens, literals, variables and named expressions, as they are
//! shown to a reader.
use vstd::prelude::*;
use vstd::string::*;

use crate::ast::{LitKind, LitV};
use crate::defs::name_text;
use crate::desugar::{all_digits, digits_value};
use crate::expr::{Builtin, BuiltinV, GExpr, NamedExpr, NamedTerm, Tm, VarKind};
use crate::text::{cat, decimal, owned, usize_to_string};
use crate::tokens::{AbsoluteIndent, ValidToken, ValidTokenV};

verus! {

/// What std's `Debug` formatting writes for a string: the string in double
/// quotes, with quotes, backslashes and characters that do not print
/// escaped.
pub uninterp spec fn debug_str(s: Seq<char>) -> Seq<char>;

/// The `Debug` text of `s` (std's `<str as Debug>::fmt`, through
/// `format!`). Its contents are named by `debug_str` and not stated here.
#[verifier::external_body]
fn str_debug(s: &str) -> (r: String)
    ensures
        r@ == debug_str(s@),
{
    format!("{s:?}")
}

/// A digit string without its leading zeros; one digit always stays.
pub open spec fn strip_zeros(ds: Seq<char>) -> Seq<char>
    decreases ds.len(),
{
    if ds.len() > 1 && ds[0] == '0' {
        strip_zeros(ds.drop_first())
    } else {
        ds
    }
}

/// Writes a digit string as `strip_zeros` says.
pub fn number_text(ds: &String) -> (r: String)
    ensures
        r@ == strip_zeros(ds@),
{
    let s = ds.as_str();
    let n = s.unicode_len();
    let mut i: usize = 0;
    assert(ds@.subrange(0, n as int) =~= ds@);
    while i + 1 < n && s.get_char(i) == '0'
        invariant
            n == s@.len(),
            s@ == ds@,
            i < n || n == 0,
            i <= n,
            strip_zeros(ds@) == strip_zeros(ds@.subrange(i as int, n as int)),
        decreases n - i,
    {
        proof {
            assert(ds@.subrange(i as int, n as int).drop_first() =~= ds@.subrange(i + 1, n as int));
        }
        i = i + 1;
    }
    proof {
        assert(ds@.subrange(0, n as int) =~= ds@);
    }
    String::from_str(s.substring_char(i, n))
}

/// `n` tabs.
pub open spec fn tabs(n: nat) -> Seq<char> {
    Seq::new(n, |i: int| '\t')
}

/// How a token is written.
pub open spec fn token_text(t: ValidTokenV<AbsoluteIndent>) -> Seq<char> {
    match t {
        ValidTokenV::Ident(name) => name,
        ValidTokenV::Number(ds) => strip_zeros(ds),
        ValidTokenV::String(s) => "\""@ + s + "\""@,
        ValidTokenV::Fn => "fn"@,
        ValidTokenV::Def => "Def"@,
        ValidTokenV::Dot => "."@,
        ValidTokenV::Colon => ":"@,
        ValidTokenV::SemiColon => ";"@,
        ValidTokenV::Arrow => "->"@,
        ValidTokenV::DoubleArrow => "=>"@,
        ValidTokenV::Pipe => "|"@,
        ValidTokenV::Star => "*"@,
        ValidTokenV::Comma => ","@,
        ValidTokenV::LParen => "("@,
        ValidTokenV::RParen => ")"@,
        ValidTokenV::LBrace => "{"@,
        ValidTokenV::RBrace => "}"@,
        ValidTokenV::LBracket => "["@,
        ValidTokenV::RBracket => "]"@,
        ValidTokenV::Hashtag => "#"@,
        ValidTokenV::Type => "Type"@,
        ValidTokenV::Mod => "Mod"@,
        ValidTokenV::Eq => "="@,
        ValidTokenV::Assign => "="@,
        ValidTokenV::Newline(AbsoluteIndent(n)) => "\n"@ + tabs(n as nat),
        ValidTokenV::Loop => "loop"@,
        ValidTokenV::While => "while"@,
        ValidTokenV::For => "for"@,
        ValidTokenV::Break => "break"@,
        ValidTokenV::Let => "let"@,
        ValidTokenV::In => "in"@,
    }
}

fn tab_run(n: usize) -> (r: String)
    ensures
        r@ == tabs(n as nat),
{
    proof {
        reveal_strlit("\t");
    }
    let mut r = String::new();
    let mut i: usize = 0;
    while i < n
        invariant
            i <= n,
            r@ == tabs(i as nat),
        decreases n - i,
    {
        let ghost before = r@;
        r = cat(r, "\t");
        proof {
            reveal_strlit("\t");
            assert("\t"@ =~= seq!['\t']);
            assert(r@ =~= tabs((i + 1) as nat));
        }
        i = i + 1;
    }
    r
}

impl ValidToken<AbsoluteIndent> {
    /// The token as it is written, as `token_text` says.
    pub fn to_text(&self) -> (r: String)
        ensures
            r@ == token_text(self@),
    {
        match self {
            ValidToken::Ident(name) => name.clone(),
            ValidToken::Number(ds) => number_text(ds),
            ValidToken::String(s) => cat(cat(owned("\""), s.as_str()), "\""),
            ValidToken::Fn => owned("fn"),
            ValidToken::Def => owned("Def"),
            ValidToken::Dot => owned("."),
            ValidToken::Colon => owned(":"),
            ValidToken::SemiColon => owned(";"),
            ValidToken::Arrow => owned("->"),
            ValidToken::DoubleArrow => owned("=>"),
            ValidToken::Pipe => owned("|"),
            ValidToken::Star => owned("*"),
            ValidToken::Comma => owned(","),
            ValidToken::LParen => owned("("),
            ValidToken::RParen => owned(")"),
            ValidToken::LBrace => owned("{"),
            ValidToken::RBrace => owned("}"),
            ValidToken::LBracket => owned("["),
            ValidToken::RBracket => owned("]"),
            ValidToken::Hashtag => owned("#"),
            ValidToken::Type => owned("Type"),
            ValidToken::Mod => owned("Mod"),
            ValidToken::Eq => owned("="),
            ValidToken::Assign => owned("="),
            ValidToken::Newline(AbsoluteIndent(n)) => {
                let t = tab_run(*n);
                cat(owned("\n"), t.as_str())
            },
            ValidToken::Loop => owned("loop"),
            ValidToken::While => owned("while"),
            ValidToken::For => owned("for"),
            ValidToken::Break => owned("break"),
            ValidToken::Let => owned("let"),
            ValidToken::In => owned("in"),
        }
    }
}

/// How a literal is written: a string between `",` and `"`, a number
/// without leading zeros.
pub open spec fn lit_text(l: LitV) -> Seq<char> {
    match l {
        LitV::String(s) => "\","@ + s + "\""@,
        LitV::Number(ds) => strip_zeros(ds),
    }
}

impl LitKind {
    /// The literal as it is written, as `lit_text` says.
    pub fn to_text(&self) -> (r: String)
        ensures
            r@ == lit_text(self@),
    {
        match self {
            LitKind::String(s) => cat(cat(owned("\","), s.as_str()), "\""),
            LitKind::Number(ds) => number_text(ds),
        }
    }
}

/// How a variable of a named expression is written: a name as it is, an
/// index after a `$`.
pub open spec fn var_text(v: VarKind<Seq<char>, usize>) -> Seq<char> {
    match v {
        VarKind::Named(s) => s,
        VarKind::Idx(i) => "$"@ + decimal(i as nat),
    }
}

impl VarKind<String, usize> {
    /// The variable as it is written, as `var_text` says.
    pub fn to_text(&self) -> (r: String)
        ensures
            r@ == var_text(self@),
    {
        match self {
            VarKind::Named(s) => s.clone(),
            VarKind::Idx(i) => {
                let d = usize_to_string(*i);
                cat(owned("$"), d.as_str())
            },
        }
    }
}

impl VarKind<String, String> {
    /// The binder name as it is written, as `name_text` says.
    pub fn to_text(&self) -> (r: String)
        ensures
            r@ == name_text(self@),
    {
        crate::defs::binder_text(self)
    }
}

/// What the derived `Debug` formatting writes for a builtin: the variant's
/// name, with its field in parentheses.
pub open spec fn builtin_debug(b: BuiltinV) -> Seq<char> {
    match b {
        BuiltinV::String(s) => "String("@ + debug_str(s) + ")"@,
        BuiltinV::StringTy => "StringTy"@,
        BuiltinV::Num(n) => "Num("@ + decimal(n as nat) + ")"@,
        BuiltinV::NumTy => "NumTy"@,
        BuiltinV::Bool(x) => "Bool("@ + (if x { "true"@ } else { "false"@ }) + ")"@,
        BuiltinV::BoolTy => "BoolTy"@,
        BuiltinV::StringCmp => "StringCmp"@,
        BuiltinV::NumCmp => "NumCmp"@,
        BuiltinV::BoolCmp => "BoolCmp"@,
        BuiltinV::Fix => "Fix"@,
        BuiltinV::TypeHole => "TypeHole"@,
    }
}

fn builtin_debug_text(b: &Builtin) -> (r: String)
    ensures
        r@ == builtin_debug(b@),
{
    match b {
        Builtin::String(s) => {
            let d = str_debug(s.as_str());
            cat(cat(owned("String("), d.as_str()), ")")
        },
        Builtin::StringTy => owned("StringTy"),
        Builtin::Num(n) => {
            let d = usize_to_string(*n);
            cat(cat(owned("Num("), d.as_str()), ")")
        },
        Builtin::NumTy => owned("NumTy"),
        Builtin::Bool(x) => {
            let v = if *x { owned("true") } else { owned("false") };
            cat(cat(owned("Bool("), v.as_str()), ")")
        },
        Builtin::BoolTy => owned("BoolTy"),
        Builtin::StringCmp => owned("StringCmp"),
        Builtin::NumCmp => owned("NumCmp"),
        Builtin::BoolCmp => owned("BoolCmp"),
        Builtin::Fix => owned("Fix"),
        Builtin::TypeHole => owned("TypeHole"),
    }
}

/// How a named expression is written with every application and binder
/// in parentheses; named binders show their name, anonymous ones do not.
pub open spec fn named_text(t: NamedTerm) -> Seq<char>
    decreases t,
{
    match t {
        Tm::Lit(b) => "\""@ + builtin_debug(b) + "\""@,
        Tm::Var(v) => var_text(v),
        Tm::Type => "Type"@,
        Tm::App(f, a) => "("@ + named_text(*f) + " "@ + named_text(*a) + ")"@,
        Tm::Lam(n, p, b) => match n {
            VarKind::Named(s) => "(("@ + s + ": "@ + named_text(*p) + ") => "@ + named_text(*b) + ")"@,
            VarKind::Idx(_) => "("@ + named_text(*p) + " => "@ + named_text(*b) + ")"@,
        },
        Tm::Pi(n, p, r) => match n {
            VarKind::Named(s) => "(("@ + s + ": "@ + named_text(*p) + ") -> "@ + named_text(*r) + ")"@,
            VarKind::Idx(_) => "("@ + named_text(*p) + " -> "@ + named_text(*r) + ")"@,
        },
        Tm::Fail(..) => "err"@,
    }
}

impl GExpr<VarKind<String, usize>, VarKind<String, String>, Vec<usize>> {
    /// The expression as it is written, as `named_text` says.
    pub fn to_text(&self) -> (r: String)
        ensures
            r@ == named_text(self@),
        decreases self,
    {
        match self {
            GExpr::Builtin(b) => {
                let d = builtin_debug_text(b);
                cat(cat(owned("\""), d.as_str()), "\"")
            },
            GExpr::Var { idx } => idx.to_text(),
            GExpr::Type => owned("Type"),
            GExpr::App { func, arg } => {
                let f = func.to_text();
                let a = arg.to_text();
                cat(cat(cat(cat(owned("("), f.as_str()), " "), a.as_str()), ")")
            },
            GExpr::Lambda { name, param_ty, body } => {
                let p = param_ty.to_text();
                let b = body.to_text();
                match name {
                    VarKind::Named(s) => cat(
                        cat(cat(cat(cat(cat(owned("(("), s.as_str()), ": "), p.as_str()), ") => "), b.as_str()),
                        ")",
                    ),
                    VarKind::Idx(_) => cat(cat(cat(cat(owned("("), p.as_str()), " => "), b.as_str()), ")"),
                }
            },
            GExpr::Pi { name, param_ty, ret_ty } => {
                let p = param_ty.to_text();
                let r = ret_ty.to_text();
                match name {
                    VarKind::Named(s) => cat(
                        cat(cat(cat(cat(cat(owned("(("), s.as_str()), ": "), p.as_str()), ") -> "), r.as_str()),
                        ")",
                    ),
                    VarKind::Idx(_) => cat(cat(cat(cat(owned("("), p.as_str()), " -> "), r.as_str()), ")"),
                }
            },
            GExpr::Error(..) => owned("err"),
        }
    }
}

proof fn lemma_digit(c: char)
    requires
        '0' as u32 <= c as u32 <= '9' as u32,
    ensures
        crate::text::digit_char(((c as u32) - ('0' as u32)) as nat) == c,
{
    let d = (c as u32) - ('0' as u32);
    if d == 0 { assert(c == '0'); }
    else if d == 1 { assert(c == '1'); }
    else if d == 2 { assert(c == '2'); }
    else if d == 3 { assert(c == '3'); }
    else if d == 4 { assert(c == '4'); }
    else if d == 5 { assert(c == '5'); }
    else if d == 6 { assert(c == '6'); }
    else if d == 7 { assert(c == '7'); }
    else if d == 8 { assert(c == '8'); }
    else { assert(c == '9'); }
}

proof fn lemma_leading_zero(rest: Seq<char>)
    ensures
        digits_value(seq!['0'] + rest) == digits_value(rest),
    decreases rest.len(),
{
    let ds = seq!['0'] + rest;
    assert(digits_value(Seq::<char>::empty()) == 0);
    if rest.len() == 0 {
        assert(ds.drop_last() =~= Seq::<char>::empty());
        assert(ds.last() == '0');
    } else {
        assert(ds.drop_last() =~= seq!['0'] + rest.drop_last());
        assert(ds.last() == rest.last());
        lemma_leading_zero(rest.drop_last());
    }
}

proof fn lemma_value_positive(ds: Seq<char>)
    requires
        ds.len() > 0,
        all_digits(ds),
        ds[0] != '0',
    ensures
        digits_value(ds) >= 1,
    decreases ds.len(),
{
    if ds.len() > 1 {
        assert(ds.drop_last()[0] == ds[0]);
        lemma_value_positive(ds.drop_last());
    } else {
        assert(ds.drop_last() =~= Seq::<char>::empty());
        assert(digits_value(Seq::<char>::empty()) == 0);
        assert('0' as u32 <= ds[0] as u32 <= '9' as u32);
        lemma_digit(ds[0]);
        assert(ds.last() == ds[0]);
    }
}

proof fn lemma_decimal_of_digits(ds: Seq<char>)
    requires
        ds.len() > 0,
        all_digits(ds),
        ds.len() == 1 || ds[0] != '0',
    ensures
        decimal(digits_value(ds)) == ds,
    decreases ds.len(),
{
    let last = ds.last();
    assert('0' as u32 <= ds[ds.len() - 1] as u32 <= '9' as u32);
    let d = ((last as u32) - ('0' as u32)) as nat;
    lemma_digit(last);
    if ds.len() == 1 {
        assert(ds.drop_last() =~= Seq::<char>::empty());
        assert(digits_value(Seq::<char>::empty()) == 0);
        assert(digits_value(ds) == d);
        assert(decimal(d) == seq![crate::text::digit_char(d)]);
        assert(ds =~= seq![last]);
    } else {
        let front = ds.drop_last();
        assert(front[0] == ds[0]);
        lemma_decimal_of_digits(front);
        lemma_value_positive(front);
        let v = digits_value(ds);
        let a = digits_value(front);
        assert(v == a * 10 + d);
        assert(v / 10 == a && v % 10 == d) by (nonlinear_arith)
            requires
                v == a * 10 + d,
                d < 10,
        ;
        assert(ds =~= front.push(last));
    }
}

/// A number literal is written as the value of its digits in decimal:
/// dropping leading zeros of a digit string is printing its value.
pub proof fn lemma_strip_zeros_is_value(ds: Seq<char>)
    requires
        ds.len() > 0,
        all_digits(ds),
    ensures
        strip_zeros(ds) == decimal(digits_value(ds)),
    decreases ds.len(),
{
    if ds.len() > 1 && ds[0] == '0' {
        let rest = ds.drop_first();
        assert(ds =~= seq!['0'] + rest);
        lemma_leading_zero(rest);
        lemma_strip_zeros_is_value(rest);
    } else {
        lemma_decimal_of_digits(ds);
    }
}

} // verus!
