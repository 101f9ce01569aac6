use conject_macro::attrs::{FieldError, InjectExpr, InjectableAttrs, ParsedField};
use conject_macro::hash::string_key;
use conject_macro::injectable::{
    annotate_closure_first_param, build_provider_bounds, dedup_prov, field_init_expr, handle_async_injectable,
    handle_inject, handle_injectable, render_prov, AssistedItem, FieldInit, InjectError, InjectableError,
    InjectableOutput, ProvType,
};
use conject_macro::model::{AttrModel, ClosureParam, FieldModel, InjectSyntax, StructModel, TypeInfo};

fn ty(key: &str) -> TypeInfo {
    let head = key.split('<').next().unwrap();
    let last = head.rsplit("::").next().unwrap().trim().to_string();
    TypeInfo { key: key.to_string(), last_segment: Some(last), reference: None }
}

fn attr(name: &str) -> AttrModel {
    AttrModel {
        name: Some(name.to_string()),
        bare: true,
        inject: None,
        expr_ok: false,
        field_factory: None,
        type_factory: None,
        decorate: None,
        scope: None,
    }
}

fn inject_attr(s: InjectSyntax) -> AttrModel {
    let mut a = attr("inject");
    a.bare = false;
    a.expr_ok = true;
    a.inject = Some(s);
    a
}

fn hook(name: &str, readable: bool) -> AttrModel {
    let mut a = attr(name);
    a.bare = false;
    a.expr_ok = readable;
    a.inject = if readable { Some(InjectSyntax::Expr) } else { None };
    a
}

fn param(name: &str, t: Option<&str>) -> ClosureParam {
    ClosureParam { ident: Some(name.to_string()), ty: t.map(ty) }
}

fn field(ident: Option<&str>, t: &str, attrs: Vec<AttrModel>) -> FieldModel {
    FieldModel { ident: ident.map(|s| s.to_string()), ty: ty(t), attrs }
}

fn strukt(attrs: Vec<AttrModel>, fields: Vec<FieldModel>) -> StructModel {
    StructModel { ident: "Service".to_string(), attrs, fields, generics: vec![] }
}

fn prov_keys(p: &[ProvType]) -> Vec<String> {
    p.iter()
        .map(|x| match x {
            ProvType::Plain(t) => t.key.clone(),
            ProvType::Named(tag, t) => format!("Named<{}, {}>", tag.key, t.key),
            ProvType::Key(h, t) => format!("Key<{}, {}>", h, t.key),
        })
        .collect()
}

#[test]
fn injectable_provides_plain_fields_and_inlines_inject_values() {
    let s = strukt(vec![], vec![field(Some("dep"), "Dep1", vec![]), field(Some("port"), "i32", vec![inject_attr(InjectSyntax::Expr)])]);
    let plan = handle_injectable(&s).ok().unwrap();
    assert!(plan.kept_attrs.is_empty());
    match plan.output {
        InjectableOutput::Inject { creation, prov, hooks, annotate_destroy } => {
            assert!(!creation.tuple);
            assert!(matches!(creation.inits[..], [FieldInit::Provide, FieldInit::Value]));
            assert_eq!(prov_keys(&prov), vec!["Dep1".to_string()]);
            assert!(hooks.post_construct.is_none() && hooks.pre_destroy.is_none() && hooks.async_pre_destroy.is_none());
            assert!(!annotate_destroy);
        }
        _ => panic!("expected an inject plan"),
    }
}

#[test]
fn injectable_tuple_struct_uses_tuple_syntax() {
    let s = strukt(vec![], vec![field(None, "Dep1", vec![]), field(None, "Dep2", vec![])]);
    match handle_injectable(&s).ok().unwrap().output {
        InjectableOutput::Inject { creation, prov, .. } => {
            assert!(creation.tuple);
            assert_eq!(creation.inits.len(), 2);
            assert_eq!(prov_keys(&prov), vec!["Dep1".to_string(), "Dep2".to_string()]);
        }
        _ => panic!("expected an inject plan"),
    }
}

#[test]
fn injectable_option_late_and_lazy_fields_ask_nothing() {
    let s = strukt(
        vec![],
        vec![
            field(Some("a"), "Option<Dep>", vec![]),
            field(Some("b"), "Late<Dep>", vec![]),
            field(Some("c"), "Lazy<Dep>", vec![]),
            field(Some("d"), "Dep", vec![]),
        ],
    );
    match handle_injectable(&s).ok().unwrap().output {
        InjectableOutput::Inject { creation, prov, .. } => {
            assert!(matches!(
                creation.inits[..],
                [FieldInit::Absent, FieldInit::LateNew, FieldInit::LazyNew, FieldInit::Provide]
            ));
            assert_eq!(prov_keys(&prov), vec!["Dep".to_string()]);
        }
        _ => panic!("expected an inject plan"),
    }
}

#[test]
fn injectable_named_string_key_uses_the_hash_of_the_text() {
    let s = strukt(vec![], vec![field(Some("url"), "String", vec![inject_attr(InjectSyntax::NamedLit("db_url".into()))])]);
    match handle_injectable(&s).ok().unwrap().output {
        InjectableOutput::Inject { creation, prov, .. } => {
            let h = string_key("db_url");
            assert!(matches!(creation.inits[0], FieldInit::NamedKey(x) if x == h));
            assert_eq!(prov_keys(&prov), vec![format!("Key<{}, String>", h)]);
        }
        _ => panic!("expected an inject plan"),
    }
}

#[test]
fn injectable_named_tag_asks_for_the_tagged_value() {
    let s = strukt(vec![], vec![field(Some("db"), "String", vec![inject_attr(InjectSyntax::NamedType(ty("Primary")))])]);
    match handle_injectable(&s).ok().unwrap().output {
        InjectableOutput::Inject { creation, prov, .. } => {
            assert!(matches!(creation.inits[0], FieldInit::Named));
            assert_eq!(prov_keys(&prov), vec!["Named<Primary, String>".to_string()]);
        }
        _ => panic!("expected an inject plan"),
    }
}

#[test]
fn injectable_closure_inputs_are_provided() {
    let closure = InjectSyntax::Closure(vec![param("dep", Some("InjectableFromInjectAttr")), param("n", Some("u8"))]);
    let s = strukt(vec![], vec![field(Some("x"), "Dep", vec![inject_attr(closure)])]);
    match handle_injectable(&s).ok().unwrap().output {
        InjectableOutput::Inject { creation, prov, .. } => {
            assert!(matches!(creation.inits[0], FieldInit::Value));
            assert_eq!(prov_keys(&prov), vec!["InjectableFromInjectAttr".to_string(), "u8".to_string()]);
        }
        _ => panic!("expected an inject plan"),
    }
}

#[test]
fn injectable_bounds_repeated_in_a_row_are_kept_once() {
    let s = strukt(
        vec![],
        vec![field(Some("a"), "Dep", vec![]), field(Some("b"), "Dep", vec![]), field(Some("c"), "Other", vec![]), field(Some("d"), "Dep", vec![])],
    );
    match handle_injectable(&s).ok().unwrap().output {
        InjectableOutput::Inject { prov, .. } => {
            assert_eq!(prov_keys(&prov), vec!["Dep".to_string(), "Other".to_string(), "Dep".to_string()]);
        }
        _ => panic!("expected an inject plan"),
    }
}

#[test]
fn injectable_refuses_inject_with_assisted() {
    let s = strukt(vec![], vec![field(Some("a"), "u32", vec![inject_attr(InjectSyntax::Expr), attr("assisted")])]);
    match handle_injectable(&s) {
        Err(InjectableError::Fields(es)) => {
            assert_eq!(es.len(), 1);
            assert_eq!(es[0].0, 0);
            assert!(matches!(es[0].1[..], [FieldError::InjectAndAssisted]));
        }
        _ => panic!("expected a field error"),
    }
}

#[test]
fn injectable_reports_every_faulty_field() {
    let bad = InjectSyntax::Closure(vec![param("d", None)]);
    let s = strukt(
        vec![],
        vec![
            field(Some("a"), "u32", vec![inject_attr(bad)]),
            field(Some("b"), "u32", vec![]),
            field(Some("c"), "u32", vec![attr("late_bind")]),
        ],
    );
    match handle_injectable(&s) {
        Err(InjectableError::Fields(es)) => {
            assert_eq!(es.len(), 2);
            assert_eq!(es[0].0, 0);
            assert!(matches!(es[0].1[..], [FieldError::InjectUnparsable(0)]));
            assert_eq!(es[1].0, 2);
            assert!(matches!(es[1].1[..], [FieldError::LateBindUnparsable(0)]));
        }
        _ => panic!("expected field errors"),
    }
}

#[test]
fn injectable_refuses_hooks_without_expression() {
    let s = strukt(vec![attr("derive"), hook("post_construct", false), hook("pre_destroy", true)], vec![]);
    match handle_injectable(&s) {
        Err(InjectableError::Hooks(ps)) => assert_eq!(ps, vec![1]),
        _ => panic!("expected a hook error"),
    }
}

#[test]
fn injectable_hooks_are_read_and_stripped() {
    let mut closure_hook = attr("async_pre_destroy");
    closure_hook.bare = false;
    closure_hook.expr_ok = true;
    closure_hook.inject = Some(InjectSyntax::Closure(vec![param("s", None)]));
    let s = strukt(
        vec![hook("post_construct", true), attr("derive"), hook("pre_destroy", true), closure_hook, hook("post_construct", true)],
        vec![],
    );
    let plan = handle_injectable(&s).ok().unwrap();
    assert_eq!(plan.kept_attrs, vec![1]);
    match plan.output {
        InjectableOutput::Inject { hooks, annotate_destroy, creation, .. } => {
            assert_eq!(hooks.post_construct, Some(4));
            assert_eq!(hooks.pre_destroy, Some(2));
            assert_eq!(hooks.async_pre_destroy, Some(3));
            assert!(annotate_destroy);
            assert!(!creation.tuple);
            assert!(creation.inits.is_empty());
        }
        _ => panic!("expected an inject plan"),
    }
}

#[test]
fn annotate_only_untyped_first_closure_parameters() {
    let mut h = hook("async_pre_destroy", true);
    assert!(!annotate_closure_first_param(&h));
    h.inject = Some(InjectSyntax::Closure(vec![param("s", Some("&mut Self"))]));
    assert!(!annotate_closure_first_param(&h));
    h.inject = Some(InjectSyntax::Closure(vec![param("s", None)]));
    assert!(annotate_closure_first_param(&h));
    h.inject = Some(InjectSyntax::Closure(vec![ClosureParam { ident: None, ty: None }]));
    assert!(!annotate_closure_first_param(&h));
    h.inject = Some(InjectSyntax::Closure(vec![]));
    assert!(!annotate_closure_first_param(&h));
}

#[test]
fn injectable_attrs_keep_the_last_readable_hook() {
    let attrs = vec![hook("pre_destroy", true), hook("pre_destroy", true), attr("other")];
    let h = InjectableAttrs::from_attrs(&attrs).ok().unwrap();
    assert_eq!(h.pre_destroy, Some(1));
    assert_eq!(h.post_construct, None);
    let mut attrs = attrs;
    InjectableAttrs::strip_from(&mut attrs);
    assert_eq!(attrs.len(), 1);
    assert_eq!(attrs[0].name.as_deref(), Some("other"));
}

#[test]
fn assisted_struct_gets_create_with_assisted_parameters() {
    let s = strukt(
        vec![],
        vec![
            field(Some("customer_id"), "u64", vec![attr("assisted")]),
            field(Some("service"), "OrderService", vec![]),
            field(Some("amount"), "u32", vec![attr("assisted")]),
            field(Some("tag"), "u8", vec![inject_attr(InjectSyntax::Expr)]),
        ],
    );
    match handle_injectable(&s).ok().unwrap().output {
        InjectableOutput::Assisted(a) => {
            assert!(!a.tuple);
            let params: Vec<(usize, String)> = a.params.iter().map(|p| (p.field, p.name.clone())).collect();
            assert_eq!(params, vec![(0, "customer_id".to_string()), (2, "amount".to_string())]);
            assert!(matches!(&a.items[0], AssistedItem::Param(n) if n == "customer_id"));
            assert!(matches!(a.items[1], AssistedItem::Injected(FieldInit::Provide)));
            assert!(matches!(&a.items[2], AssistedItem::Param(n) if n == "amount"));
            assert!(matches!(a.items[3], AssistedItem::Injected(FieldInit::Value)));
            assert_eq!(prov_keys(&a.prov), vec!["OrderService".to_string()]);
        }
        _ => panic!("expected an assisted plan"),
    }
}

#[test]
fn assisted_struct_injects_named_and_optional_fields_as_inject_does() {
    let s = strukt(
        vec![],
        vec![
            field(Some("id"), "u64", vec![attr("assisted")]),
            field(Some("primary"), "Db", vec![inject_attr(InjectSyntax::NamedType(ty("PrimaryDb")))]),
            field(Some("url"), "String", vec![inject_attr(InjectSyntax::NamedLit("db_url".to_string()))]),
            field(Some("cache"), "Option<Cache>", vec![]),
            field(Some("late"), "Late<Dep>", vec![]),
        ],
    );
    match handle_injectable(&s).ok().unwrap().output {
        InjectableOutput::Assisted(a) => {
            let h = string_key("db_url");
            assert!(matches!(a.items[1], AssistedItem::Injected(FieldInit::Named)));
            assert!(matches!(a.items[2], AssistedItem::Injected(FieldInit::NamedKey(k)) if k == h));
            assert!(matches!(a.items[3], AssistedItem::Injected(FieldInit::Absent)));
            assert!(matches!(a.items[4], AssistedItem::Injected(FieldInit::LateNew)));
            assert_eq!(prov_keys(&a.prov), vec!["Named<PrimaryDb, Db>".to_string(), format!("Key<{}, String>", h)]);
        }
        _ => panic!("expected an assisted plan"),
    }
}

#[test]
fn assisted_tuple_struct_names_parameters_by_position() {
    let s = strukt(vec![], vec![field(None, "Dep", vec![]), field(None, "u32", vec![attr("assisted")])]);
    match handle_injectable(&s).ok().unwrap().output {
        InjectableOutput::Assisted(a) => {
            assert!(a.tuple);
            assert_eq!(a.params.len(), 1);
            assert_eq!(a.params[0].field, 1);
            assert_eq!(a.params[0].name, "__assisted_1");
        }
        _ => panic!("expected an assisted plan"),
    }
}

#[test]
fn async_injectable_provides_fields_without_inject() {
    let fields = vec![
        field(Some("a"), "Dep", vec![]),
        field(Some("b"), "u32", vec![inject_attr(InjectSyntax::Closure(vec![param("x", Some("Dep"))]))]),
        field(Some("c"), "Other", vec![]),
    ];
    let p = handle_async_injectable(&fields).ok().unwrap();
    assert!(!p.tuple);
    assert_eq!(p.injected, vec![None, Some(0), None]);
    assert_eq!(prov_keys(&p.prov), vec!["Dep".to_string(), "Other".to_string()]);
}

#[test]
fn async_injectable_reports_the_first_unreadable_inject() {
    let bad = || inject_attr(InjectSyntax::Closure(vec![param("x", None)]));
    let fields = vec![field(Some("a"), "Dep", vec![]), field(Some("b"), "u32", vec![bad()]), field(Some("c"), "u8", vec![bad()])];
    assert_eq!(handle_async_injectable(&fields).err(), Some(1));
}

#[test]
fn inject_on_a_struct_reads_closure_inputs() {
    let closure = InjectSyntax::Closure(vec![param("dep", Some("Dep")), param("n", Some("u8"))]);
    let e = handle_inject(&Some(closure)).ok().unwrap();
    let keys: Vec<String> = e.inputs.iter().map(|t| t.key.clone()).collect();
    assert_eq!(keys, vec!["Dep".to_string(), "u8".to_string()]);
    assert!(handle_inject(&Some(InjectSyntax::Expr)).ok().unwrap().inputs.is_empty());
    assert!(handle_inject(&Some(InjectSyntax::NamedLit("x".into()))).ok().unwrap().inputs.is_empty());
}

#[test]
fn inject_on_a_struct_refuses_untyped_or_unparsable_arguments() {
    let closure = InjectSyntax::Closure(vec![param("dep", Some("Dep")), param("n", None)]);
    assert!(matches!(handle_inject(&Some(closure)), Err(InjectError::UntypedParam(1))));
    assert!(matches!(handle_inject(&None), Err(InjectError::Unparsable)));
}

#[test]
fn field_init_follows_the_inject_expression_then_the_type() {
    assert!(matches!(field_init_expr(&ty("u8"), &Some(InjectExpr::NamedStr(7))), FieldInit::NamedKey(7)));
    assert!(matches!(field_init_expr(&ty("u8"), &Some(InjectExpr::Named(ty("T")))), FieldInit::Named));
    assert!(matches!(field_init_expr(&ty("Option<u8>"), &Some(InjectExpr::Value(vec![]))), FieldInit::Value));
    assert!(matches!(field_init_expr(&ty("Option<u8>"), &None), FieldInit::Absent));
    assert!(matches!(field_init_expr(&ty("u8"), &None), FieldInit::Provide));
}

#[test]
fn provider_bounds_are_deduplicated_in_a_row() {
    let types = vec![ty("A"), ty("A"), ty("Option<B>"), ty("C")];
    let attrs = vec![None, None, None, Some(InjectExpr::Value(vec![ty("A"), ty("A")]))];
    let prov = build_provider_bounds(&types, &attrs);
    assert_eq!(prov_keys(&prov), vec!["A".to_string()]);
    let d = dedup_prov(vec![ProvType::Plain(ty("X")), ProvType::Key(1, ty("X")), ProvType::Key(1, ty("X"))]);
    assert_eq!(d.len(), 2);
}

#[test]
fn provider_bounds_render_as_tokens() {
    assert_eq!(render_prov(&ProvType::Plain(ty("Vec<u8>"))), "Vec<u8>");
    assert_eq!(render_prov(&ProvType::Named(ty("Tag"), ty("B"))), ":: conject :: Named < Tag , B >");
    assert_eq!(
        render_prov(&ProvType::Key(42, ty("B"))),
        ":: conject :: Named < :: conject :: Key < 42u128 > , B >"
    );
    assert_eq!(
        render_prov(&ProvType::Key(0, ty("B"))),
        ":: conject :: Named < :: conject :: Key < 0u128 > , B >"
    );
}

#[test]
fn provider_bounds_that_render_alike_collapse() {
    let d = dedup_prov(vec![
        ProvType::Named(ty("A"), ty("B")),
        ProvType::Plain(ty(":: conject :: Named < A , B >")),
        ProvType::Named(ty("A"), ty("C")),
    ]);
    assert_eq!(d.len(), 2);
    assert!(matches!(&d[0], ProvType::Named(_, _)));
    assert_eq!(render_prov(&d[1]), ":: conject :: Named < A , C >");
}

#[test]
fn parsed_field_reads_flags_and_positions() {
    let f = field(Some("x"), "Dep", vec![attr("import"), attr("provide"), attr("singleton"), attr("export"), attr("assisted")]);
    let p = ParsedField::from_syn_field(&f).ok().unwrap();
    assert!(p.import && p.assisted && p.singleton);
    assert_eq!(p.provide_attrs, vec![1, 2]);
    assert_eq!(p.export_attrs, vec![3]);
    assert!(p.has_provide_or_singleton());
    assert!(p.has_export());
    assert!(p.inject.is_none());
    assert!(p.inject_at.is_none());
}

#[test]
fn parsed_field_keeps_the_position_of_the_inject_in_force() {
    let f = field(Some("x"), "u8", vec![inject_attr(InjectSyntax::Expr), attr("other"), inject_attr(InjectSyntax::Expr)]);
    let p = ParsedField::from_syn_field(&f).ok().unwrap();
    assert_eq!(p.inject_at, Some(2));
    assert!(matches!(&p.inject, Some(InjectExpr::Value(ts)) if ts.is_empty()));
}
