use rex::ast::{clone_sast, LitKind, SpannedAst, SpannedFixAst};
use rex::defs::{search, search_defs, traverse_defs, Located, NamedDef, NamedDefs};
use rex::desugar::{create_church_num, remove_span_expr, with_zero_span, SpannedNamedExpr, SpannedNamedNode};
use rex::expr::{to_named, Builtin, Expr, ExprF, GExpr, NamedExpr, VarKind};
use rex::text::join_fmt;
use rex::eval::{head_normal_form, normal_form, weak_head_normal_form};
use rex::helper::{find_char, map_index, token_at};
use rex::ide::{char_span_from_ast_span, nth_valid, semantic_token, token_index};
use rex::lexer::{collect_results, lexer};
use rex::lower::{Atom, Closure, Frame, Instruction, Step, VM};
use rex::name_resolver::to_indices_unspanned;
use rex::parser::try_parse;
use rex::positions::{loc_at, search as ast_search, search_list, traverse_list};
use rex::printer::print_expr;
use rex::tokens::{
    tok_span_to_result_tok_span, valid_tokens, AbsoluteIndent, ErrorToken, GToken, InertToken, RelativeIndent, Span,
    ValidToken,
};

fn leaf(node: SpannedAst, at: usize) -> SpannedFixAst {
    SpannedFixAst(node, (at, at))
}

fn sv(name: &str) -> SpannedAst {
    SpannedAst::Var(name.to_string())
}

fn parse_src(src: &str) -> Vec<SpannedFixAst> {
    try_parse(&valid_tokens(&lexer(src))).unwrap()
}

fn sn(node: SpannedNamedNode, loc: Vec<usize>) -> SpannedNamedExpr {
    SpannedNamedExpr(node, loc)
}

fn nvar(s: &str, loc: Vec<usize>) -> SpannedNamedExpr {
    sn(SpannedNamedNode::Var { idx: VarKind::Named(s.to_string()) }, loc)
}

/// `def x := y` with the value at the surface path of `y`.
fn defs_of_x(val: SpannedNamedExpr) -> NamedDefs {
    NamedDefs(vec![NamedDef { name: ("x".to_string(), vec![0, 0]), ty: None, val }])
}

#[test]
fn search_finds_the_innermost_node_holding_a_token() {
    let defs = parse_src("def x := (y z)");
    // `z` is valid token 5, inside the group inside the binding
    assert_eq!(search_list(parse_src("def x := (y z)"), 5), vec![vec![0, 1, 0, 1]]);
    // the group's parentheses belong to no child: the group itself is found
    assert_eq!(search_list(parse_src("def x := (y z)"), 6), vec![vec![0, 1]]);
    assert_eq!(search_list(parse_src("def x := (y z)"), 9), Vec::<Vec<usize>>::new());
    assert_eq!(ast_search(clone_sast(&defs[0]), 1, vec![7]), vec![vec![7, 0]]);
    let node = traverse_list(defs, vec![0, 1, 0, 1]).unwrap();
    assert_eq!(*node, leaf(sv("z"), 5));
}

#[test]
fn search_in_every_definition_stops_at_the_first_that_holds() {
    let defs = parse_src("def a\ndef b");
    assert_eq!(search_list(defs, 4), vec![vec![1]]);
}

#[test]
fn expression_search_follows_recorded_paths() {
    let lam = sn(
        SpannedNamedNode::Lambda {
            name: (VarKind::Named("v".to_string()), vec![1, 2]),
            param_ty: Box::new(sn(SpannedNamedNode::Type, vec![1, 0])),
            body: Box::new(nvar("v", vec![1, 1])),
        },
        vec![1],
    );
    assert_eq!(search(lam, vec![1, 1], vec![]), vec![vec![2]]);
    let lam2 = sn(
        SpannedNamedNode::Lambda {
            name: (VarKind::Named("v".to_string()), vec![1, 2]),
            param_ty: Box::new(sn(SpannedNamedNode::Type, vec![1, 0])),
            body: Box::new(nvar("v", vec![1, 1])),
        },
        vec![1],
    );
    // the binder's name is found where it was written
    assert_eq!(search(lam2, vec![1, 2], vec![4]), vec![vec![4, 0]]);
    let app = sn(
        SpannedNamedNode::App { func: Box::new(nvar("f", vec![3])), arg: Box::new(nvar("f", vec![3])) },
        vec![],
    );
    // both children were made from the same surface node
    assert_eq!(search(app, vec![3], vec![9]), vec![vec![9, 0], vec![9, 1]]);
    assert_eq!(search(nvar("q", vec![4]), vec![5], vec![]), Vec::<Vec<usize>>::new());
}

#[test]
fn traversing_a_spanned_expression() {
    let lam = sn(
        SpannedNamedNode::Lambda {
            name: (VarKind::Named("v".to_string()), vec![1, 2]),
            param_ty: Box::new(sn(SpannedNamedNode::Type, vec![1, 0])),
            body: Box::new(nvar("v", vec![1, 1])),
        },
        vec![1],
    );
    let copy = sn(
        SpannedNamedNode::Lambda {
            name: (VarKind::Named("v".to_string()), vec![1, 2]),
            param_ty: Box::new(sn(SpannedNamedNode::Type, vec![1, 0])),
            body: Box::new(nvar("v", vec![1, 1])),
        },
        vec![1],
    );
    match lam.traverse(vec![2]) {
        Some(Located::Node(n)) => assert_eq!(n, nvar("v", vec![1, 1])),
        _ => panic!("expected the body"),
    }
    match copy.traverse(vec![0, 5]) {
        Some(Located::Name(s, l)) => {
            assert_eq!(s, "v");
            assert_eq!(l, vec![1, 2]);
        }
        _ => panic!("expected the binder name"),
    }
    assert!(nvar("v", vec![]).traverse(vec![0]).is_none());
}

#[test]
fn definitions_searched_and_traversed() {
    assert_eq!(search_defs(defs_of_x(nvar("y", vec![0, 1])), vec![0, 1]), vec![vec![0, 2]]);
    assert_eq!(search_defs(defs_of_x(nvar("y", vec![0, 1])), vec![0, 0]), vec![vec![0, 0]]);
    assert_eq!(search_defs(defs_of_x(nvar("y", vec![0, 1])), vec![1]), Vec::<Vec<usize>>::new());
    match traverse_defs(defs_of_x(nvar("y", vec![0, 1])), vec![0, 2]) {
        Some(Located::Node(n)) => assert_eq!(n, nvar("y", vec![0, 1])),
        _ => panic!("expected the value"),
    }
    match traverse_defs(defs_of_x(nvar("y", vec![0, 1])), vec![0, 0]) {
        Some(Located::Name(s, l)) => {
            assert_eq!(s, "x");
            assert_eq!(l, vec![0, 0]);
        }
        _ => panic!("expected the name"),
    }
    // no type was given
    assert!(traverse_defs(defs_of_x(nvar("y", vec![0, 1])), vec![0, 1]).is_none());
    assert!(traverse_defs(defs_of_x(nvar("y", vec![0, 1])), vec![0]).is_none());
}

#[test]
fn token_kinds_for_highlighting() {
    assert_eq!(token_index(GToken::<AbsoluteIndent>::ValidToken(ValidToken::Type)), Some(4));
    assert_eq!(token_index(GToken::<AbsoluteIndent>::ValidToken(ValidToken::Number("1".to_string()))), Some(3));
    assert_eq!(token_index(GToken::<AbsoluteIndent>::ValidToken(ValidToken::Arrow)), Some(1));
    assert_eq!(token_index(GToken::<AbsoluteIndent>::ValidToken(ValidToken::Let)), Some(0));
    assert_eq!(token_index(GToken::<AbsoluteIndent>::ValidToken(ValidToken::Def)), None);
    assert_eq!(token_index(GToken::<AbsoluteIndent>::InertToken(InertToken::Comment("c".to_string()))), Some(11));
    assert_eq!(token_index(GToken::<AbsoluteIndent>::InertToken(InertToken::Space(1))), None);
    assert_eq!(token_index(GToken::<AbsoluteIndent>::ErrorToken(ErrorToken::InvalidChar('-'))), Some(14));
}

#[test]
fn identifiers_are_classified_by_the_node_they_became() {
    let toks = lexer("def x := y");
    let y = toks[6].clone();
    assert_eq!(
        semantic_token(parse_src("def x := y"), defs_of_x(nvar("y", vec![0, 1])), y.clone(), Some(3)),
        Some(2)
    );
    let lam = sn(
        SpannedNamedNode::Lambda {
            name: (VarKind::Idx(String::new()), vec![]),
            param_ty: Box::new(sn(SpannedNamedNode::Type, vec![])),
            body: Box::new(nvar("y", vec![])),
        },
        vec![0, 1],
    );
    assert_eq!(semantic_token(parse_src("def x := y"), defs_of_x(lam), y.clone(), Some(3)), Some(8));
    assert_eq!(semantic_token(parse_src("def x := y"), defs_of_x(nvar("y", vec![0, 1])), y, None), None);
    assert_eq!(
        semantic_token(parse_src("def x := y"), defs_of_x(nvar("y", vec![0, 1])), toks[0].clone(), Some(0)),
        Some(0)
    );
}

#[test]
fn valid_token_positions_and_source_regions() {
    let toks = lexer("def x := y");
    assert_eq!(nth_valid(&toks, 3), Some(6));
    assert_eq!(nth_valid(&toks, 4), None);
    // both ends of the span are included
    assert_eq!(char_span_from_ast_span(&toks, (1, 3)), Some(Span { start: 4, end: 10 }));
    assert_eq!(char_span_from_ast_span(&toks, (1, 2)), Some(Span { start: 4, end: 8 }));
    assert_eq!(char_span_from_ast_span(&toks, (0, 0)), Some(Span { start: 0, end: 3 }));
    assert_eq!(char_span_from_ast_span(&toks, (1, 4)), None);
}

#[test]
fn looking_up_the_character_under_an_offset() {
    let toks = lexer("def x := y");
    assert_eq!(token_at(&toks, 5), 2);
    assert_eq!(token_at(&toks, 11), 7);
    let hit = find_char(&toks, parse_src("def x := y"), 5).unwrap();
    assert_eq!(hit.token, 2);
    assert_eq!(hit.ast_index, Some(1));
    assert_eq!(hit.ast_path, Some(vec![0, 0]));
    assert_eq!(*hit.node.unwrap().unwrap(), leaf(sv("x"), 1));
    let space = find_char(&toks, parse_src("def x := y"), 4).unwrap();
    assert_eq!(space.token, 1);
    assert_eq!(space.ast_index, None);
    assert_eq!(space.ast_path, None);
    assert!(space.node.is_none());
    assert!(find_char(&toks, parse_src("def x := y"), 11).is_none());
}

#[test]
fn tokens_with_a_relative_indentation() {
    let t = ValidToken::<RelativeIndent>::from_generic(ValidToken::<usize>::Ident("a".to_string()));
    assert!(matches!(t, ValidToken::Ident(ref s) if s == "a"));
    let c = ValidToken::<RelativeIndent>::from_generic(ValidToken::<usize>::Colon);
    assert!(matches!(c, ValidToken::Colon));
}

#[test]
fn texts_of_tokens_and_literals() {
    assert_eq!(ValidToken::Number("0012".to_string()).to_text(), "12");
    assert_eq!(ValidToken::Number("0".to_string()).to_text(), "0");
    assert_eq!(ValidToken::Newline(AbsoluteIndent(2)).to_text(), "\n\t\t");
    assert_eq!(ValidToken::<AbsoluteIndent>::Assign.to_text(), "=");
    assert_eq!(ValidToken::<AbsoluteIndent>::Def.to_text(), "Def");
    assert_eq!(ValidToken::<AbsoluteIndent>::String("s".to_string()).to_text(), "\"s\"");
    assert_eq!(LitKind::String("s".to_string()).to_text(), "\",s\"");
    assert_eq!(LitKind::Number("070".to_string()).to_text(), "70");
    assert_eq!(VarKind::<String, usize>::Idx(3).to_text(), "$3");
    assert_eq!(VarKind::<String, usize>::Named("n".to_string()).to_text(), "n");
    assert_eq!(VarKind::<String, String>::Idx("h".to_string()).to_text(), "$h");
}

#[test]
fn texts_of_named_expressions() {
    let lam: NamedExpr = GExpr::Lambda {
        name: VarKind::Named("x".to_string()),
        param_ty: Box::new(GExpr::Type),
        body: Box::new(GExpr::Var { idx: VarKind::Named("x".to_string()) }),
    };
    assert_eq!(lam.to_text(), "((x: Type) => x)");
    let pi: NamedExpr = GExpr::Pi {
        name: VarKind::Idx(String::new()),
        param_ty: Box::new(GExpr::Var { idx: VarKind::Idx(0) }),
        ret_ty: Box::new(GExpr::Type),
    };
    assert_eq!(pi.to_text(), "($0 -> Type)");
    let app: NamedExpr = GExpr::App {
        func: Box::new(GExpr::Builtin(Builtin::Num(5))),
        arg: Box::new(GExpr::Builtin(Builtin::String("a".to_string()))),
    };
    assert_eq!(app.to_text(), "(\"Num(5)\" \"String(\"a\")\")");
    let err: NamedExpr = GExpr::Error(rex::expr::ExprError::Unknown, vec![]);
    assert_eq!(err.to_text(), "err");
}

#[test]
fn the_tokens_cover_the_text() {
    let src = "def é := y // c";
    let toks = lexer(src);
    assert_eq!(toks[0].1.start, 0);
    for w in toks.windows(2) {
        assert_eq!(w[0].1.end, w[1].1.start);
        assert!(w[0].1.start < w[0].1.end);
    }
    assert_eq!(toks.last().unwrap().1.end, src.len());
    assert!(lexer("").is_empty());
}

#[test]
fn numbering_valid_tokens_round_trips() {
    let toks = lexer("def x := y");
    for n in 0..toks.len() {
        if let Some(k) = map_index(&toks, n) {
            assert_eq!(tok_span_to_result_tok_span((k, k), &toks), Some((n, n)));
        }
    }
    assert_eq!(tok_span_to_result_tok_span((2, 2), &toks), Some((4, 4)));
    assert_eq!(map_index(&toks, 4), Some(2));
}

#[test]
fn search_results_lead_to_nodes_holding_the_token() {
    let src = "def f := (a b) c\ndef g := f";
    for x in 0..12 {
        for p in search_list(parse_src(src), x) {
            let node = traverse_list(parse_src(src), p).unwrap();
            assert!(node.1 .0 <= x && x <= node.1 .1);
        }
    }
}

#[test]
fn definition_search_leads_to_what_was_made_from_the_path() {
    let make = || {
        NamedDefs(vec![NamedDef {
            name: ("x".to_string(), vec![0, 0]),
            ty: Some(sn(SpannedNamedNode::Type, vec![0, 2])),
            val: sn(
                SpannedNamedNode::App {
                    func: Box::new(nvar("f", vec![0, 1, 0])),
                    arg: Box::new(nvar("a", vec![0, 1, 1])),
                },
                vec![0, 1],
            ),
        }])
    };
    for loc in [vec![0, 0], vec![0, 1], vec![0, 1, 1], vec![0, 2]] {
        for p in search_defs(make(), loc.clone()) {
            match traverse_defs(make(), p) {
                Some(Located::Node(n)) => assert_eq!(n.1, loc),
                Some(Located::Name(_, l)) => assert_eq!(l, loc),
                None => panic!("a found path leads nowhere"),
            }
        }
    }
}

#[test]
fn naming_and_resolving_gives_the_expression_back() {
    let e: Expr = GExpr::Lambda {
        name: "x".to_string(),
        param_ty: Box::new(GExpr::Type),
        body: Box::new(GExpr::App { func: Box::new(GExpr::Var { idx: 0 }), arg: Box::new(GExpr::Var { idx: 3 }) }),
    };
    assert_eq!(to_indices_unspanned(&to_named(&e)), e);
}

#[test]
fn zero_paths_removed_give_the_expression_back() {
    let make = || -> NamedExpr {
        GExpr::App {
            func: Box::new(GExpr::Var { idx: VarKind::Named("f".to_string()) }),
            arg: Box::new(GExpr::Var { idx: VarKind::Idx(2) }),
        }
    };
    assert_eq!(remove_span_expr(with_zero_span(&make())), make());
}

#[test]
fn church_numerals_print_as_their_number() {
    assert_eq!(print_expr(to_indices_unspanned(&create_church_num("3"))), "3");
    assert_eq!(print_expr(to_indices_unspanned(&create_church_num("12"))), "12");
}

#[test]
fn results_are_collected_until_the_first_error() {
    assert_eq!(collect_results::<u8, &str>(vec![Ok(1), Ok(2)]), Ok(vec![1, 2]));
    assert_eq!(collect_results::<u8, &str>(vec![Ok(1), Err("a"), Err("b")]), Err("a"));
    assert_eq!(collect_results::<u8, &str>(vec![]), Ok(vec![]));
}

#[test]
fn machine_constants_and_addition() {
    let mut vm = VM::new();
    let mut code = vec![Instruction::I32Const(2), Instruction::I32Const(3), Instruction::I32Add, Instruction::Print];
    let mut pc = 0;
    assert!(vm.can_step(&code, pc));
    assert!(matches!(vm.step(&mut code, &mut pc), Step::Continue));
    assert!(matches!(vm.step(&mut code, &mut pc), Step::Continue));
    assert_eq!(pc, 2);
    assert!(vm.can_step(&code, pc));
    assert!(matches!(vm.step(&mut code, &mut pc), Step::Continue));
    // an addition does not move on
    assert_eq!(pc, 2);
    assert!(matches!(vm.operand_stack[..], [Atom::Int(5)]));
    // with one operand left, adding is refused
    assert!(!vm.can_step(&code, pc));
    pc = 3;
    match vm.step(&mut code, &mut pc) {
        Step::Print(Atom::Int(5)) => {}
        _ => panic!("expected to print 5"),
    }
    assert_eq!(pc, 3);
    assert!(vm.operand_stack.is_empty());
    assert!(!vm.can_step(&code, pc));
}

#[test]
fn machine_sum_that_overflows_is_refused() {
    let mut vm = VM::new();
    vm.operand_stack.push(Atom::Int(i32::MAX));
    vm.operand_stack.push(Atom::Int(1));
    assert!(!vm.can_step(&vec![Instruction::I32Add], 0));
}

#[test]
fn machine_calls_and_returns() {
    let mut vm = VM::new();
    let body = vec![Instruction::LocalGet(1), Instruction::Return];
    vm.operand_stack.push(Atom::Int(7));
    vm.operand_stack.push(Atom::Closure(Box::new(Closure { code: body.clone(), env: vec![Atom::Int(1)] })));
    let mut code = vec![Instruction::Call(1)];
    let mut pc = 0;
    assert!(vm.can_step(&code, pc));
    assert!(matches!(vm.step(&mut code, &mut pc), Step::Continue));
    assert_eq!(code, body);
    assert_eq!(pc, 0);
    assert!(vm.operand_stack.is_empty());
    assert_eq!(vm.call_stack.len(), 1);
    assert!(matches!(vm.call_stack[0].locals[..], [Atom::Int(1), Atom::Int(7)]));
    assert!(matches!(vm.step(&mut code, &mut pc), Step::Continue));
    assert!(matches!(vm.operand_stack[..], [Atom::Int(7)]));
    assert_eq!(pc, 1);
    // the frame is removed and its own code runs again from its position
    assert!(matches!(vm.step(&mut code, &mut pc), Step::Continue));
    assert!(vm.call_stack.is_empty());
    assert_eq!(code, body);
    assert_eq!(pc, 0);
    let mut end = vec![Instruction::Return];
    let mut at = 0;
    assert!(matches!(vm.step(&mut end, &mut at), Step::Halt));
}

#[test]
fn machine_closures_capture_operands() {
    let mut vm = VM::new();
    vm.operand_stack.push(Atom::Int(4));
    vm.operand_stack.push(Atom::Closure(Box::new(Closure { code: vec![], env: vec![] })));
    let mut code = vec![Instruction::MakeClosure(1)];
    let mut pc = 0;
    assert!(matches!(vm.step(&mut code, &mut pc), Step::Continue));
    assert_eq!(pc, 1);
    match &vm.operand_stack[..] {
        [Atom::Closure(c)] => assert!(matches!(c.env[..], [Atom::Int(4)])),
        _ => panic!("expected one closure"),
    }
    let frame = Frame { locals: vec![], code: vec![], pc: 0 };
    vm.call_stack.push(frame);
    assert!(!vm.can_step(&vec![Instruction::LocalGet(0)], 0));
}

#[test]
fn catamorphism_counts_from_the_leaves_up() {
    let e: Expr = GExpr::App {
        func: Box::new(GExpr::Lambda { name: "x".to_string(), param_ty: Box::new(GExpr::Type), body: Box::new(GExpr::Var { idx: 0 }) }),
        arg: Box::new(GExpr::Error(rex::expr::ExprError::Unknown, vec![Box::new(GExpr::Type), Box::new(GExpr::Type)])),
    };
    let size = |layer: ExprF<usize, usize, String, Vec<usize>>| -> usize {
        match layer {
            ExprF::App { func, arg } => func + arg + 1,
            ExprF::Lambda { param_ty, body, .. } | ExprF::Pi { param_ty, ret_ty: body, .. } => param_ty + body + 1,
            ExprF::Error(_, items) => items.iter().sum::<usize>() + 1,
            _ => 1,
        }
    };
    assert_eq!(e.cata(&size), 7);
}

#[test]
fn texts_joined_with_a_separator() {
    assert_eq!(join_fmt(&vec!["a".to_string(), "b".to_string(), "c".to_string()], " -> "), "a -> b -> c");
    assert_eq!(join_fmt(&vec!["a".to_string()], ", "), "a");
    assert_eq!(join_fmt(&vec![], ", "), "");
}

fn redex_under_binder() -> Expr {
    // (y: Type) => ((x: Type) => x) y, applied under an application head
    let id: Expr = GExpr::Lambda { name: "x".to_string(), param_ty: Box::new(GExpr::Type), body: Box::new(GExpr::Var { idx: 0 }) };
    let inner: Expr = GExpr::App { func: Box::new(id), arg: Box::new(GExpr::Var { idx: 0 }) };
    let lam: Expr = GExpr::Lambda { name: "y".to_string(), param_ty: Box::new(GExpr::Type), body: Box::new(inner) };
    GExpr::App { func: Box::new(GExpr::Var { idx: 3 }), arg: Box::new(lam) }
}

#[test]
fn reducing_twice_is_reducing_once() {
    let once = normal_form(&redex_under_binder());
    assert_eq!(normal_form(&once), once);
    let expected: Expr = GExpr::App {
        func: Box::new(GExpr::Var { idx: 3 }),
        arg: Box::new(GExpr::Lambda { name: "y".to_string(), param_ty: Box::new(GExpr::Type), body: Box::new(GExpr::Var { idx: 0 }) }),
    };
    assert_eq!(once, expected);
    let head = head_normal_form(&redex_under_binder());
    assert_eq!(head_normal_form(&head), head);
    // the head form leaves the argument of a stuck application alone
    assert_eq!(head, redex_under_binder());
    let weak = weak_head_normal_form(&redex_under_binder());
    assert_eq!(weak_head_normal_form(&weak), weak);
}

#[test]
fn recorded_paths_agree_with_traversal() {
    let make = || {
        sn(
            SpannedNamedNode::Lambda {
                name: (VarKind::Named("v".to_string()), vec![1, 2]),
                param_ty: Box::new(sn(SpannedNamedNode::Type, vec![1, 0])),
                body: Box::new(nvar("v", vec![1, 1])),
            },
            vec![1],
        )
    };
    for path in [vec![], vec![0], vec![1], vec![2], vec![3], vec![2, 0]] {
        let expected = match make().traverse(path.clone()) {
            Some(Located::Node(n)) => Some(n.1),
            Some(Located::Name(_, l)) => Some(l),
            None => None,
        };
        assert_eq!(loc_at(&make(), &path, 0), expected);
    }
}

#[test]
fn surface_fold_visits_children_in_order() {
    let defs = parse_src("def a b c");
    let node = clone_sast(&defs[0]).0;
    let names = node.fold(String::new(), |acc: String, child: SpannedFixAst| match child.0 {
        SpannedAst::Var(n) => acc + &n,
        _ => acc,
    });
    assert_eq!(names, "abc");
    let leaf_fold = SpannedAst::Type.fold(5usize, |acc: usize, _c: SpannedFixAst| acc + 1);
    assert_eq!(leaf_fold, 5);
}
