use rex::ast::{FixAst, LitKind};
use rex::cache::{lower_expr, SeaOfNodes};
use rex::desugar::{
    create_accessor, create_church_num, desugar, remove_span_expr, try_desugar, SpannedNamedExpr, SpannedNamedNode,
};
use rex::eval::{beta_reduce, normal_form, shift, subst, weak_head_normal_form};
use rex::expr::{to_named, Expr, ExprError, ExprF, GExpr, NamedExpr, VarKind};
use rex::lower::{lift_expr, CoreExpr, Expr as L};
use rex::name_resolver::{resolve, to_indices, to_indices_unspanned, NameResolver, SpannedExpr, SpannedNode};
use rex::printer::{print_expr, print_named_expr};
use rex::types::{eq, infer_type, TypeError};
use rex::{compile, get_named_expr};

fn named_var(s: &str) -> FixAst {
    FixAst::Var(s.to_string())
}

fn sn(node: SpannedNamedNode, loc: Vec<usize>) -> SpannedNamedExpr {
    SpannedNamedExpr(node, loc)
}

fn nvar(s: &str, loc: Vec<usize>) -> SpannedNamedExpr {
    sn(SpannedNamedNode::Var { idx: VarKind::Named(s.to_string()) }, loc)
}

fn anon() -> VarKind<String, String> {
    VarKind::Idx(String::new())
}

fn var(i: usize) -> Expr {
    GExpr::Var { idx: i }
}

fn lam(name: &str, p: Expr, b: Expr) -> Expr {
    GExpr::Lambda { name: name.to_string(), param_ty: Box::new(p), body: Box::new(b) }
}

fn pi(name: &str, p: Expr, r: Expr) -> Expr {
    GExpr::Pi { name: name.to_string(), param_ty: Box::new(p), ret_ty: Box::new(r) }
}

fn app(f: Expr, a: Expr) -> Expr {
    GExpr::App { func: Box::new(f), arg: Box::new(a) }
}

#[test]
fn desugars_a_typed_lambda() {
    // (x : Type) => x
    let ast = FixAst::Lambda(vec![FixAst::Ann(vec![named_var("x"), FixAst::Type]), named_var("x")]);
    let r = desugar(ast, vec![]).unwrap();
    assert_eq!(
        r,
        sn(
            SpannedNamedNode::Lambda {
                name: (VarKind::Named("x".to_string()), vec![0, 0]),
                param_ty: Box::new(sn(SpannedNamedNode::Type, vec![0, 1])),
                body: Box::new(nvar("x", vec![1])),
            },
            vec![]
        )
    );
    let named = remove_span_expr(r);
    assert_eq!(to_indices_unspanned(&named), lam("x", GExpr::Type, var(0)));
}

#[test]
fn lambda_parameter_needs_a_type() {
    let ast = FixAst::Lambda(vec![named_var("x"), named_var("x")]);
    assert_eq!(desugar(ast, vec![]), Err(ExprError::MissingType(vec![0])));
}

#[test]
fn pi_parameter_is_a_type() {
    let ast = FixAst::Pi(vec![FixAst::Type, FixAst::Type]);
    assert_eq!(
        desugar(ast, vec![7]).unwrap(),
        sn(
            SpannedNamedNode::Pi {
                name: (anon(), vec![]),
                param_ty: Box::new(sn(SpannedNamedNode::Type, vec![7, 0])),
                ret_ty: Box::new(sn(SpannedNamedNode::Type, vec![7, 1])),
            },
            vec![7]
        )
    );
}

#[test]
fn application_is_left_nested() {
    let ast = FixAst::App(vec![named_var("f"), named_var("a"), named_var("b")]);
    let r = desugar(ast, vec![]).unwrap();
    let inner = sn(
        SpannedNamedNode::App { func: Box::new(nvar("f", vec![0])), arg: Box::new(nvar("a", vec![1])) },
        vec![],
    );
    assert_eq!(r, sn(SpannedNamedNode::App { func: Box::new(inner), arg: Box::new(nvar("b", vec![2])) }, vec![]));
}

#[test]
fn function_definition_becomes_a_lambda() {
    // f (a : T) := a
    let ast = FixAst::Binding(vec![
        FixAst::App(vec![named_var("f"), FixAst::Group(Box::new(FixAst::Ann(vec![named_var("a"), named_var("T")])))]),
        named_var("a"),
    ]);
    assert_eq!(
        desugar(ast, vec![]).unwrap(),
        sn(
            SpannedNamedNode::Lambda {
                name: (VarKind::Named("a".to_string()), vec![0, 1, 0, 0]),
                param_ty: Box::new(nvar("T", vec![0, 1, 0, 1])),
                body: Box::new(nvar("a", vec![1])),
            },
            vec![0, 1]
        )
    );
}

#[test]
fn each_desugaring_error() {
    let missing_value = FixAst::Ann(vec![named_var("x"), FixAst::Type]);
    assert_eq!(desugar(missing_value, vec![]), Err(ExprError::MissingValue(vec![])));
    let invalid_binder = FixAst::Binding(vec![FixAst::Type, named_var("x")]);
    assert_eq!(desugar(invalid_binder, vec![]), Err(ExprError::InvalidBinder(vec![0])));
    let invalid_name = FixAst::Binding(vec![FixAst::App(vec![FixAst::Type, named_var("x")]), named_var("y")]);
    assert_eq!(desugar(invalid_name, vec![]), Err(ExprError::InvalidBinderName(vec![0, 0])));
    let invalid_param = FixAst::Binding(vec![FixAst::App(vec![named_var("f"), named_var("a")]), named_var("a")]);
    assert_eq!(desugar(invalid_param, vec![]), Err(ExprError::InvalidBinderParam(vec![0, 1])));
    let missing_binder = FixAst::Sigma(vec![named_var("a"), named_var("b")]);
    assert_eq!(desugar(missing_binder, vec![]), Err(ExprError::MissingBinder(vec![0])));
    let missing_type = FixAst::Tuple(vec![named_var("a"), named_var("b")]);
    assert_eq!(desugar(missing_type, vec![]), Err(ExprError::MissingType(vec![0])));
    assert_eq!(desugar(FixAst::Error(rex::ast::AstError::Unknown, vec![]), vec![]), Err(ExprError::Unknown));
}

#[test]
fn unsupported_constructs_give_no_result() {
    assert!(try_desugar(&FixAst::Lit(LitKind::String("s".to_string())), &vec![]).is_none());
    assert!(try_desugar(&FixAst::Dot(vec![named_var("a"), named_var("b")]), &vec![]).is_none());
    assert!(try_desugar(&FixAst::Lit(LitKind::Number("0".to_string())), &vec![]).is_none());
    assert!(try_desugar(&FixAst::App(vec![]), &vec![]).is_none());
}

fn nv(i: usize) -> NamedExpr {
    GExpr::Var { idx: VarKind::Idx(i) }
}

fn nlam(p: NamedExpr, b: NamedExpr) -> NamedExpr {
    GExpr::Lambda { name: anon(), param_ty: Box::new(p), body: Box::new(b) }
}

#[test]
fn church_numerals() {
    let two = create_church_num("2");
    let body = GExpr::App {
        func: Box::new(nv(1)),
        arg: Box::new(GExpr::App { func: Box::new(nv(1)), arg: Box::new(nv(0)) }),
    };
    let f_ty = GExpr::Pi { name: anon(), param_ty: Box::new(nv(0)), ret_ty: Box::new(nv(1)) };
    assert_eq!(two, nlam(GExpr::Type, nlam(f_ty, nlam(nv(1), body))));
    // the numeral of a literal carries empty paths
    let lit = desugar(FixAst::Lit(LitKind::Number("1".to_string())), vec![3]).unwrap();
    assert_eq!(lit.1, Vec::<usize>::new());
    // numbers are taken modulo 2^64
    let wrapped = create_church_num("18446744073709551617");
    assert_eq!(wrapped, create_church_num("1"));
    // a nonzero multiple of 2^64 gives the numeral zero
    let zero = create_church_num("18446744073709551616");
    let f_ty0 = GExpr::Pi { name: anon(), param_ty: Box::new(nv(0)), ret_ty: Box::new(nv(1)) };
    assert_eq!(zero, nlam(GExpr::Type, nlam(f_ty0, nlam(nv(1), nv(0)))));
    assert!(desugar(FixAst::Lit(LitKind::Number("18446744073709551616".to_string())), vec![]).is_ok());
    assert!(try_desugar(&FixAst::Lit(LitKind::Number("000".to_string())), &vec![]).is_none());
}

#[test]
fn accessors_pick_an_argument() {
    assert_eq!(create_accessor(2, 1), nlam(GExpr::Type, nlam(GExpr::Type, nv(1))));
}

#[test]
fn resolution_finds_the_innermost_binder() {
    let mut ctx = vec![
        VarKind::Named("a".to_string()),
        VarKind::Named("b".to_string()),
        VarKind::Named("a".to_string()),
    ];
    assert_eq!(resolve("a".to_string(), &mut ctx), Some(0));
    assert_eq!(resolve("b".to_string(), &mut ctx), Some(1));
    assert_eq!(resolve("c".to_string(), &mut ctx), None);
    assert_eq!(ctx.len(), 3);
}

#[test]
fn unresolved_names_become_error_nodes() {
    let named: NamedExpr = GExpr::App {
        func: Box::new(GExpr::Var { idx: VarKind::Named("z".to_string()) }),
        arg: Box::new(GExpr::Type),
    };
    let e = NameResolver::run(named).unwrap();
    assert_eq!(
        e,
        GExpr::App {
            func: Box::new(GExpr::Error(ExprError::ResolveFailed("z".to_string(), vec![0], vec![]), vec![])),
            arg: Box::new(GExpr::Type),
        }
    );
}

#[test]
fn names_resolve_through_binders() {
    let named: NamedExpr = GExpr::Lambda {
        name: VarKind::Named("x".to_string()),
        param_ty: Box::new(GExpr::Type),
        body: Box::new(GExpr::Lambda {
            name: VarKind::Named("y".to_string()),
            param_ty: Box::new(GExpr::Type),
            body: Box::new(GExpr::Var { idx: VarKind::Named("x".to_string()) }),
        }),
    };
    assert_eq!(to_indices_unspanned(&named), lam("x", GExpr::Type, lam("y", GExpr::Type, var(1))));
}

#[test]
fn to_named_keeps_indices_and_hints() {
    let e = lam("x", GExpr::Type, var(0));
    let n: NamedExpr = to_named(&e);
    assert_eq!(
        n,
        GExpr::Lambda { name: VarKind::Idx("x".to_string()), param_ty: Box::new(GExpr::Type), body: Box::new(nv(0)) }
    );
    assert_eq!(to_indices_unspanned(&n), e);
}

#[test]
fn compiles_a_file_without_type_errors() {
    let (expr, errors) = compile("def id : Type := Type".to_string()).unwrap();
    assert_eq!(
        expr,
        lam("", GExpr::Type, lam("", pi("id", GExpr::Type, var(1)), app(var(0), GExpr::Type)))
    );
    assert!(errors.is_empty());
}

#[test]
fn named_expression_ignores_layout() {
    let a = get_named_expr("def id : Type := Type".to_string());
    let b = get_named_expr("def   id // the name\n : Type\n:= Type".to_string());
    assert!(a.is_ok());
    assert_eq!(a, b);
}

#[test]
fn desugaring_error_is_placed_in_the_source() {
    assert_eq!(compile("def x := y\n".to_string()), Err(ExprError::MissingType(Some(((1, 5), (1, 11))))));
    assert_eq!(get_named_expr("def x := y\n".to_string()), Err(ExprError::MissingType(Some(((1, 5), (1, 11))))));
}

#[test]
fn type_error_is_placed_in_the_source() {
    let (_, errors) = compile("def f : Type := Type Type\n".to_string()).unwrap();
    assert_eq!(errors, vec![TypeError::NotAFunction((GExpr::Type, Some(((1, 17), (1, 21)))))]);
}

#[test]
fn evaluation_steps() {
    assert_eq!(beta_reduce(&var(0), &GExpr::Type), GExpr::Type);
    assert_eq!(beta_reduce(&var(1), &GExpr::Type), var(0));
    assert_eq!(shift(&lam("x", GExpr::Type, var(1)), 2, 0), lam("x", GExpr::Type, var(3)));
    // shifting up and back down by the same amount restores the term
    let t = app(lam("y", var(4), app(var(0), var(2))), var(1));
    assert_eq!(shift(&shift(&t, 5, 1), -5, 1), t);
    assert_eq!(subst(0, &app(var(0), var(1)), &GExpr::Type), app(GExpr::Type, var(1)));
    let redex = app(lam("x", GExpr::Type, var(0)), GExpr::Type);
    assert_eq!(weak_head_normal_form(&redex), GExpr::Type);
    assert_eq!(normal_form(&lam("y", GExpr::Type, redex)), lam("y", GExpr::Type, GExpr::Type));
}

#[test]
fn inference_of_a_lambda() {
    let mut errors = Vec::new();
    let ty = infer_type(&lam("x", GExpr::Type, var(0)), vec![], &mut errors, vec![]);
    assert_eq!(ty, Ok(pi("", GExpr::Type, GExpr::Type)));
    assert!(errors.is_empty());
    assert!(eq(&pi("a", GExpr::Type, var(0)), &pi("b", GExpr::Type, var(0))));
    assert!(!eq(&var(0), &var(1)));
}

#[test]
fn printing() {
    assert_eq!(print_expr(lam("x", GExpr::Type, var(0))), "(x: Type) => x");
    let named: NamedExpr = GExpr::Lambda {
        name: VarKind::Named("x".to_string()),
        param_ty: Box::new(GExpr::Type),
        body: Box::new(GExpr::Var { idx: VarKind::Named("x".to_string()) }),
    };
    assert_eq!(print_named_expr(named), "(x: Type) => x");
}

#[test]
fn lifting_collects_arguments_and_parameters() {
    let e = L::App(Box::new(L::App(Box::new(L::Var(0)), Box::new(L::Var(1)))), Box::new(L::Var(2)));
    assert_eq!(lift_expr(e), CoreExpr::App(Box::new(CoreExpr::Var(0)), vec![CoreExpr::Var(2), CoreExpr::Var(1)]));
    let l = L::Lambda(Box::new(L::Lambda(Box::new(L::Var(0)))));
    assert_eq!(lift_expr(l), CoreExpr::Lambda(2, Box::new(CoreExpr::Var(0))));
}

#[test]
fn sea_of_nodes_shares_layers() {
    let mut sea = SeaOfNodes::new();
    let e = app(var(0), var(0));
    let id = lower_expr(&e, &mut sea);
    // the variable is stored once, with two references
    assert_eq!(sea.nodes.len(), 2);
    let var_id = sea.add_node(ExprF::Var { idx: 0 });
    assert_eq!(sea.nodes.get(&var_id).unwrap().1, 3);
    assert_eq!(sea.get_tree(id), Some(app(var(0), var(0))));
    assert_eq!(sea.get_node(id), Some(&ExprF::App { func: var_id, arg: var_id }));
    assert_eq!(sea.get_tree(id ^ 1), None);
}

#[test]
fn lowered_tree_reads_back_without_names() {
    let mut sea = SeaOfNodes::new();
    let e = lam("x", GExpr::Type, app(var(1), var(0)));
    let id = lower_expr(&e, &mut sea);
    assert_eq!(sea.nodes.len(), 5);
    assert_eq!(sea.get_tree(id), Some(lam("", GExpr::Type, app(var(1), var(0)))));
    // function and argument keep their places
    let f = sea.add_node(ExprF::Var { idx: 1 });
    let a = sea.add_node(ExprF::Var { idx: 0 });
    let app_id = sea.add_node(ExprF::App { func: f, arg: a });
    assert_eq!(sea.get_tree(app_id), Some(app(var(1), var(0))));
    assert_ne!(sea.get_tree(app_id), Some(app(var(0), var(1))));
}

fn se(node: SpannedNode, loc: Vec<usize>) -> SpannedExpr {
    SpannedExpr(node, loc)
}

#[test]
fn spanned_resolution_keeps_every_span() {
    // \x: Type. x z, each node and the binder's name with a span of its own
    let input = sn(
        SpannedNamedNode::Lambda {
            name: (VarKind::Named("x".to_string()), vec![0]),
            param_ty: Box::new(sn(SpannedNamedNode::Type, vec![1])),
            body: Box::new(sn(
                SpannedNamedNode::App { func: Box::new(nvar("x", vec![2])), arg: Box::new(nvar("z", vec![3])) },
                vec![4],
            )),
        },
        vec![5],
    );
    let expected = se(
        SpannedNode::Lambda {
            name: ("x".to_string(), vec![0]),
            param_ty: Box::new(se(SpannedNode::Type, vec![1])),
            body: Box::new(se(
                SpannedNode::App {
                    func: Box::new(se(SpannedNode::Var { idx: 0 }, vec![2])),
                    arg: Box::new(se(
                        SpannedNode::Error(
                            ExprError::ResolveFailed(
                                "z".to_string(),
                                vec![2, 1],
                                vec![VarKind::Named("x".to_string())],
                            ),
                            vec![],
                        ),
                        vec![3],
                    )),
                },
                vec![4],
            )),
        },
        vec![5],
    );
    assert_eq!(to_indices(input), expected);
}

#[test]
fn fold_visits_children_in_order() {
    let layer: ExprF<u32, usize, (), Vec<usize>> = ExprF::App { func: 3, arg: 4 };
    assert_eq!(layer.fold(1u32, |acc, x| acc * 10 + x), 134);
    let leaf: ExprF<u32, usize, (), Vec<usize>> = ExprF::Type;
    assert_eq!(leaf.fold(7u32, |acc, x| acc + x), 7);
}

#[test]
fn traverse_follows_a_path_from_its_end() {
    let e = lam("x", GExpr::Type, app(var(0), var(1)));
    assert_eq!(e.traverse(vec![1, 1]), Some(var(1)));
    assert_eq!(lam("x", GExpr::Type, var(0)).traverse(vec![2]), None);
}
