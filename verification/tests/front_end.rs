use rex::ast::{AstError, LitKind, SpannedAst, SpannedFixAst};
use rex::diagnostics::{char_to_pos, lex_diagnostics, span_to_range, LineCol, LineColRange};
use rex::helper::map_index;
use rex::lexer::lexer;
use rex::parser::{parse, try_parse};
use rex::positions::{char_index_to_line_offset, range_to_line_offset_range, span_at_list, traverse_list};
use rex::tokens::{
    extract_good_toks, result_tok_span_to_char_span, tok_span_to_result_tok_span, valid_tokens, AbsoluteIndent,
    ErrorToken, GToken, InertToken, Span, ValidToken,
};
use rex::Traverse;

fn v(t: ValidToken<AbsoluteIndent>) -> GToken<AbsoluteIndent> {
    GToken::ValidToken(t)
}

fn ident(s: &str) -> GToken<AbsoluteIndent> {
    v(ValidToken::Ident(s.to_string()))
}

fn space(n: usize) -> GToken<AbsoluteIndent> {
    GToken::InertToken(InertToken::Space(n))
}

fn kinds(src: &str) -> Vec<GToken<AbsoluteIndent>> {
    lexer(src).into_iter().map(|t| t.0).collect()
}

fn leaf(node: SpannedAst, at: usize) -> SpannedFixAst {
    SpannedFixAst(node, (at, at))
}

fn var(name: &str) -> SpannedAst {
    SpannedAst::Var(name.to_string())
}

fn parse_src(src: &str) -> Option<Vec<SpannedFixAst>> {
    let toks = lexer(src);
    try_parse(&valid_tokens(&toks))
}

#[test]
fn lexes_a_definition_with_byte_spans() {
    let toks = lexer("def x := y");
    let ks: Vec<GToken<AbsoluteIndent>> = toks.iter().map(|t| t.0.clone()).collect();
    assert_eq!(
        ks,
        vec![v(ValidToken::Def), space(1), ident("x"), space(1), v(ValidToken::Assign), space(1), ident("y")]
    );
    assert_eq!(toks[0].1, Span { start: 0, end: 3 });
    assert_eq!(toks[4].1, Span { start: 6, end: 8 });
    assert_eq!(toks[6].1, Span { start: 9, end: 10 });
}

#[test]
fn keyword_fn_only_as_a_whole_word() {
    assert_eq!(kinds("fn fnx"), vec![v(ValidToken::Fn), space(1), ident("fnx")]);
}

#[test]
fn operators_of_two_characters() {
    assert_eq!(
        kinds("->=>|>:=:."),
        vec![
            v(ValidToken::Arrow),
            v(ValidToken::DoubleArrow),
            v(ValidToken::Pipe),
            v(ValidToken::Assign),
            v(ValidToken::Colon),
            v(ValidToken::Dot),
        ]
    );
}

#[test]
fn keywords_are_recognised() {
    assert_eq!(
        kinds("Type Mod loop"),
        vec![v(ValidToken::Type), space(1), v(ValidToken::Mod), space(1), v(ValidToken::Loop)]
    );
    assert_eq!(kinds("while"), vec![v(ValidToken::While)]);
    assert_eq!(kinds("in"), vec![v(ValidToken::In)]);
}

#[test]
fn line_break_records_the_tabs_after_it() {
    assert_eq!(kinds("x\n\t\ty"), vec![ident("x"), v(ValidToken::Newline(AbsoluteIndent(2))), ident("y")]);
}

#[test]
fn spaces_swallow_the_line_breaks_after_them() {
    assert_eq!(kinds("x  \n y"), vec![ident("x"), space(4), ident("y")]);
}

#[test]
fn comment_runs_to_the_end_of_the_line() {
    assert_eq!(
        kinds("// hi\nx"),
        vec![
            GToken::InertToken(InertToken::Comment(" hi".to_string())),
            v(ValidToken::Newline(AbsoluteIndent(0))),
            ident("x"),
        ]
    );
}

#[test]
fn strings_and_numbers() {
    assert_eq!(kinds("\"ab\""), vec![v(ValidToken::String("ab".to_string()))]);
    assert_eq!(kinds("12ab"), vec![v(ValidToken::Number("12".to_string())), ident("ab")]);
}

#[test]
fn empty_string_literal_is_two_invalid_quotes() {
    assert_eq!(
        kinds("\"\""),
        vec![GToken::ErrorToken(ErrorToken::InvalidChar('"')), GToken::ErrorToken(ErrorToken::InvalidChar('"'))]
    );
}

#[test]
fn invalid_characters_keep_their_byte_width() {
    let toks = lexer("a-é");
    assert_eq!(toks[1].0, GToken::ErrorToken(ErrorToken::InvalidChar('-')));
    assert_eq!(toks[2].0, GToken::ErrorToken(ErrorToken::InvalidChar('é')));
    assert_eq!(toks[2].1, Span { start: 2, end: 4 });
}

#[test]
fn good_tokens_drop_spaces_and_errors() {
    let toks: Vec<GToken<AbsoluteIndent>> = kinds("a - b");
    assert_eq!(
        extract_good_toks(toks),
        vec![ValidToken::Ident("a".to_string()), ValidToken::Ident("b".to_string())]
    );
}

#[test]
fn parses_a_binding() {
    let defs = parse_src("def x := y").unwrap();
    assert_eq!(
        defs,
        vec![SpannedFixAst(SpannedAst::Binding(vec![leaf(var("x"), 1), leaf(var("y"), 3)]), (1, 3))]
    );
}

#[test]
fn stream_must_start_with_def() {
    let defs = parse_src("x := y").unwrap();
    assert_eq!(
        defs,
        vec![SpannedFixAst(
            SpannedAst::Error(AstError::InvalidToken(ValidToken::Ident("x".to_string())), vec![]),
            (0, 0)
        )]
    );
    assert_eq!(parse_src("").unwrap(), vec![]);
}

#[test]
fn application_group_and_dot_chain() {
    let defs = parse_src("def a.b (c)").unwrap();
    assert_eq!(
        defs,
        vec![SpannedFixAst(
            SpannedAst::App(vec![
                SpannedFixAst(SpannedAst::Dot(vec![leaf(var("a"), 1), leaf(var("b"), 3)]), (1, 3)),
                SpannedFixAst(SpannedAst::Group(Box::new(leaf(var("c"), 5))), (4, 6)),
            ]),
            (1, 6)
        )]
    );
}

#[test]
fn operators_bind_in_order_of_precedence() {
    // `|>` is looser than `;`, which is looser than `,`
    let defs = parse_src("def a, b ; c |> d").unwrap();
    let tuple = SpannedFixAst(SpannedAst::Tuple(vec![leaf(var("a"), 1), leaf(var("b"), 3)]), (1, 3));
    let sigma = SpannedFixAst(SpannedAst::Sigma(vec![tuple, leaf(var("c"), 5)]), (1, 5));
    assert_eq!(defs, vec![SpannedFixAst(SpannedAst::Pipe(vec![sigma, leaf(var("d"), 7)]), (1, 7))]);
}

#[test]
fn lambda_is_looser_than_pi() {
    let defs = parse_src("def f => g -> h").unwrap();
    let pi = SpannedFixAst(SpannedAst::Pi(vec![leaf(var("g"), 3), leaf(var("h"), 5)]), (3, 5));
    assert_eq!(defs, vec![SpannedFixAst(SpannedAst::Lambda(vec![leaf(var("f"), 1), pi]), (1, 5))]);
}

#[test]
fn several_definitions_and_literals() {
    let defs = parse_src("def a\ndef 7 \"s\"").unwrap();
    assert_eq!(defs.len(), 2);
    assert_eq!(defs[0], leaf(var("a"), 1));
    assert_eq!(
        defs[1],
        SpannedFixAst(
            SpannedAst::App(vec![
                leaf(SpannedAst::Lit(LitKind::Number("7".to_string())), 4),
                leaf(SpannedAst::Lit(LitKind::String("s".to_string())), 5),
            ]),
            (4, 5)
        )
    );
}

#[test]
fn unmatched_parentheses_are_refused() {
    assert!(parse_src("def (a").is_none());
    assert!(parse_src("def a)").is_none());
}

#[test]
fn parse_of_matched_tokens() {
    let toks = lexer("def Type");
    let defs = parse(valid_tokens(&toks));
    assert_eq!(defs, vec![leaf(SpannedAst::Type, 1)]);
}

#[test]
fn token_ranges_map_back_to_bytes() {
    let toks = lexer("def x := y");
    // valid tokens 1 to 3 are `x` and `y`, at positions 2 and 6
    assert_eq!(tok_span_to_result_tok_span((1, 3), &toks), Some((2, 6)));
    assert_eq!(tok_span_to_result_tok_span((3, 1), &toks), None);
    assert_eq!(tok_span_to_result_tok_span((1, 9), &toks), None);
    assert_eq!(result_tok_span_to_char_span((2, 6), &toks), Some(Span { start: 4, end: 10 }));
    assert_eq!(result_tok_span_to_char_span((2, 7), &toks), None);
}

#[test]
fn index_among_valid_tokens() {
    let toks = lexer("def x := y");
    assert_eq!(map_index(&toks, 2), Some(1));
    assert_eq!(map_index(&toks, 1), None);
    assert_eq!(map_index(&toks, 7), None);
}

#[test]
fn byte_offsets_to_lines_and_columns() {
    assert_eq!(char_index_to_line_offset("ab\ncd", 0), Some((1, 1)));
    assert_eq!(char_index_to_line_offset("ab\ncd", 2), Some((1, 3)));
    assert_eq!(char_index_to_line_offset("ab\ncd", 3), Some((2, 1)));
    assert_eq!(char_index_to_line_offset("ab\ncd", 5), None);
    assert_eq!(char_index_to_line_offset("", 0), None);
    assert_eq!(range_to_line_offset_range(Span { start: 1, end: 4 }, "ab\ncd"), Some(((1, 2), (2, 2))));
    assert_eq!(range_to_line_offset_range(Span { start: 1, end: 5 }, "ab\ncd"), None);
}

#[test]
fn paths_into_the_definitions() {
    let defs = parse_src("def x := (y z)").unwrap();
    assert_eq!(span_at_list(&defs, &vec![0]), Some((1, 6)));
    assert_eq!(span_at_list(&defs, &vec![0, 1, 0, 1]), Some((5, 5)));
    assert_eq!(span_at_list(&defs, &vec![0, 1, 1]), None);
    assert_eq!(span_at_list(&defs, &vec![]), None);
    let node = traverse_list(parse_src("def x := (y z)").unwrap(), vec![0, 1, 0, 0]).unwrap();
    assert_eq!(*node, leaf(var("y"), 4));
    let def = parse_src("def x := (y z)").unwrap().remove(0);
    assert_eq!(*def.traverse(vec![0]).unwrap(), leaf(var("x"), 1));
}

fn lc_range(l0: usize, c0: usize, l1: usize, c1: usize) -> LineColRange {
    LineColRange { start: LineCol { line: l0, character: c0 }, end: LineCol { line: l1, character: c1 } }
}

#[test]
fn diagnostics_give_lines_and_columns() {
    let d = lex_diagnostics("a\n  -\u{e9}");
    assert_eq!(
        d,
        vec![
            (lc_range(1, 2, 1, 3), "invalid token: -".to_string()),
            (lc_range(1, 3, 1, 5), "invalid token: \u{e9}".to_string()),
        ]
    );
    // a CR LF pair ends one line
    assert_eq!(lex_diagnostics("a\r\n-"), vec![(lc_range(1, 0, 1, 1), "invalid token: -".to_string())]);
    assert_eq!(lex_diagnostics("x\n\ny -"), vec![(lc_range(2, 2, 2, 3), "invalid token: -".to_string())]);
    assert!(lex_diagnostics("a b").is_empty());
    // columns count bytes, the UTF-8 position encoding
    assert_eq!(lex_diagnostics("\u{e9}-x"), vec![
        (lc_range(0, 0, 0, 2), "invalid token: \u{e9}".to_string()),
        (lc_range(0, 2, 0, 3), "invalid token: -".to_string()),
    ]);
}

#[test]
fn positions_in_a_rope() {
    let rope = ropey::Rope::from_str("ab\r\ncd\u{2028}e");
    assert_eq!(char_to_pos(&rope, 0), (0, 0));
    // the LF of a CR LF pair stays on the line the pair ends
    assert_eq!(char_to_pos(&rope, 3), (0, 3));
    assert_eq!(char_to_pos(&rope, 4), (1, 0));
    assert_eq!(char_to_pos(&rope, 7), (2, 0));
    assert_eq!(char_to_pos(&rope, 8), (2, 1));
    // a span of bytes; the line separator takes three bytes
    assert_eq!(span_to_range(&rope, Span { start: 4, end: 10 }), lc_range(1, 0, 2, 1));
    assert_eq!(span_to_range(&rope, Span { start: 5, end: 9 }), lc_range(1, 1, 2, 0));
}

#[test]
fn map_index_points_into_the_valid_tokens() {
    let toks = lexer("a - b");
    let good = extract_good_toks(toks.iter().map(|t| t.0.clone()).collect());
    assert_eq!(good.len(), 2);
    for n in 0..toks.len() {
        match map_index(&toks, n) {
            Some(k) => assert_eq!(GToken::ValidToken(good[k].clone()), toks[n].0),
            None => assert!(!matches!(toks[n].0, GToken::ValidToken(_))),
        }
    }
    assert_eq!(tok_span_to_result_tok_span((0, 1), &toks), Some((0, 4)));
    assert_eq!(tok_span_to_result_tok_span((1, 1), &toks), Some((4, 4)));
    assert_eq!(tok_span_to_result_tok_span((1, 0), &toks), None);
    assert_eq!(tok_span_to_result_tok_span((0, 2), &toks), None);
}
