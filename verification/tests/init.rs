use conject_macro::init::{gen_chain, handle_init, InitError, InitInput, InitPlan, LetDecl};
use conject_macro::types::{ArgShape, ArgsShape, PathShape, SegmentShape, TypeShape};

fn path(names: &[&str], args: Vec<ArgShape>) -> TypeShape {
    let n = names.len();
    let segments = names
        .iter()
        .enumerate()
        .map(|(i, s)| SegmentShape {
            ident: s.to_string(),
            args: if i + 1 == n && !args.is_empty() { ArgsShape::Angle(vec![]) } else { ArgsShape::Plain },
        })
        .collect::<Vec<_>>();
    let mut segments = segments;
    if !args.is_empty() {
        segments[n - 1].args = ArgsShape::Angle(args);
    }
    TypeShape::Path(PathShape { leading_colon: false, segments })
}

fn lt(name: &str) -> ArgShape {
    ArgShape::Lifetime(name.to_string())
}

#[test]
fn init_expression_chains_each_module() {
    let input = InitInput::Expr(vec![path(&["ConfigModule"], vec![]), path(&["CacheModule"], vec![])]);
    match handle_init(&input) {
        Ok(InitPlan::Expr(c)) => {
            assert_eq!(c.init_ident, "__NjectInit_expr");
            assert_eq!(c.init_var, "__nject_init_expr");
            assert_eq!(c.steps.len(), 1);
            assert_eq!(c.steps[0].ident, "__NjectInitStep_expr_0");
            assert_eq!(c.steps[0].var, "__nject_expr_s0");
            assert!(c.steps[0].lifetimes.is_empty());
            assert_eq!(c.last_var, "__nject_expr_s0");
        }
        _ => panic!("expected an expression chain"),
    }
}

#[test]
fn init_with_one_module_provides_from_the_start() {
    let c = gen_chain(&vec![path(&["OnlyModule"], vec![])], "p");
    assert!(c.steps.is_empty());
    assert_eq!(c.last_var, "__nject_init_p");
}

#[test]
fn init_block_chains_each_binding() {
    let decls = vec![
        LetDecl { is_mut: false, ident: "provider".into(), ty: Some("AppProvider".into()), modules: vec![path(&["A"], vec![]), path(&["B"], vec![]), path(&["C"], vec![])] },
        LetDecl { is_mut: true, ident: "other".into(), ty: None, modules: vec![path(&["A"], vec![])] },
    ];
    match handle_init(&InitInput::Block(decls)) {
        Ok(InitPlan::Block(cs)) => {
            assert_eq!(cs.len(), 2);
            assert_eq!(cs[0].init_ident, "__NjectInit_provider");
            let steps: Vec<(String, String)> = cs[0].steps.iter().map(|s| (s.ident.clone(), s.var.clone())).collect();
            assert_eq!(
                steps,
                vec![
                    ("__NjectInitStep_provider_0".to_string(), "__nject_provider_s0".to_string()),
                    ("__NjectInitStep_provider_1".to_string(), "__nject_provider_s1".to_string()),
                ]
            );
            assert_eq!(cs[0].last_var, "__nject_provider_s1");
            assert_eq!(cs[1].last_var, "__nject_init_other");
        }
        _ => panic!("expected a block of chains"),
    }
}

#[test]
fn init_refuses_empty_input() {
    assert!(matches!(handle_init(&InitInput::Expr(vec![])), Err(InitError::NoModules)));
    assert!(matches!(handle_init(&InitInput::Block(vec![])), Err(InitError::NoDeclarations)));
    let decls = vec![
        LetDecl { is_mut: false, ident: "a".into(), ty: None, modules: vec![path(&["A"], vec![])] },
        LetDecl { is_mut: false, ident: "b".into(), ty: None, modules: vec![] },
        LetDecl { is_mut: false, ident: "c".into(), ty: None, modules: vec![] },
    ];
    assert!(matches!(handle_init(&InitInput::Block(decls)), Err(InitError::DeclWithoutModules(1))));
}

#[test]
fn init_steps_collect_each_lifetime_once() {
    let m1 = path(&["M1"], vec![lt("'a"), ArgShape::Type(path(&["Vec"], vec![lt("'b")]))]);
    let m2 = TypeShape::Reference(Some("'b".into()), false, Box::new(path(&["M2"], vec![lt("'c"), lt("'a")])));
    let m3 = path(&["M3"], vec![]);
    let c = gen_chain(&vec![m1, m2, m3], "x");
    assert_eq!(c.steps[0].lifetimes, vec!["'a".to_string(), "'b".to_string()]);
    assert_eq!(c.steps[1].lifetimes, vec!["'a".to_string(), "'b".to_string(), "'c".to_string()]);
}
