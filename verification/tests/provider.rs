use conject_macro::attrs::{parse_decorate, parse_field_factory, DecorateError, FieldFactoryError, FieldFactoryExpr, ParsedField, ProviderAttrs};
use conject_macro::imports::{gen_imports_for_import_attr, ImportedModule};
use conject_macro::model::{
    AttrModel, ClosureParam, DecorateSyntax, FieldFactorySyntax, FieldModel, RefInfo, ScopeField, StructModel,
    TypeFactorySyntax, TypeInfo,
};
use conject_macro::provider::{
    gen_providers_for_provide_attr_on_fields, gen_providers_for_provide_attr_on_struct, handle_provider, provide_impl,
    provider_input_ok,
    provider_fields, ProvidedType, ProviderError, RefLifetime,
};
use conject_macro::scope::gen_scope_output;

fn ty(key: &str) -> TypeInfo {
    let head = key.split('<').next().unwrap();
    let last = head.rsplit("::").next().unwrap().trim().to_string();
    TypeInfo { key: key.to_string(), last_segment: Some(last), reference: None }
}

fn ref_ty(lifetime: Option<&str>, elem: &str) -> TypeInfo {
    let key = match lifetime {
        Some(l) => format!("& {} {}", l, elem),
        None => format!("& {}", elem),
    };
    TypeInfo {
        key,
        last_segment: None,
        reference: Some(RefInfo { lifetime: lifetime.map(|s| s.to_string()), elem_key: elem.to_string() }),
    }
}

fn attr(name: &str) -> AttrModel {
    AttrModel {
        name: Some(name.to_string()),
        bare: true,
        inject: None,
        expr_ok: false,
        field_factory: None,
        type_factory: None,
        decorate: None,
        scope: None,
    }
}

fn param(name: &str, t: Option<&str>) -> ClosureParam {
    ClosureParam { ident: Some(name.to_string()), ty: t.map(ty) }
}

fn field_attr(name: &str, f: FieldFactorySyntax) -> AttrModel {
    let mut a = attr(name);
    a.bare = false;
    a.field_factory = Some(f);
    a
}

fn provide_struct(f: TypeFactorySyntax) -> AttrModel {
    let mut a = attr("provide");
    a.bare = false;
    a.type_factory = Some(f);
    a
}

fn decorate(t: &str, var: &str) -> AttrModel {
    let mut a = attr("decorate");
    a.bare = false;
    a.decorate = Some(DecorateSyntax { ty: ty(t), params: vec![param(var, None)] });
    a
}

fn scope_attr(f: Option<ScopeField>) -> AttrModel {
    let mut a = attr("scope");
    a.bare = false;
    a.scope = f;
    a
}

fn scope_field(name: Option<&str>, t: &str, attrs: Vec<AttrModel>) -> ScopeField {
    ScopeField { name: name.map(|s| s.to_string()), ty: ty(t), attrs }
}

fn field(ident: Option<&str>, t: TypeInfo, attrs: Vec<AttrModel>) -> FieldModel {
    FieldModel { ident: ident.map(|s| s.to_string()), ty: t, attrs }
}

fn provider(attrs: Vec<AttrModel>, fields: Vec<FieldModel>) -> StructModel {
    StructModel { ident: "Provider".to_string(), attrs, fields, generics: vec![] }
}

#[test]
fn provider_decorators_apply_in_written_order() {
    let s = provider(
        vec![
            provide_struct(TypeFactorySyntax::TypeExpr(ty("Box<dyn Logger>"))),
            decorate("Box<dyn Logger>", "inner"),
            decorate("Other", "x"),
            decorate("Box<dyn Logger>", "inner"),
        ],
        vec![],
    );
    let plan = handle_provider(s).ok().unwrap();
    assert_eq!(plan.struct_provides.len(), 1);
    let p = &plan.struct_provides[0];
    assert_eq!(p.attr, 0);
    assert_eq!(p.factory.ty.key, "Box<dyn Logger>");
    assert!(p.factory.inputs.is_empty());
    assert_eq!(p.decorators, vec![0, 2]);
}

#[test]
fn provider_struct_binding_closure_inputs_are_provided() {
    let f = TypeFactorySyntax::TypeClosure(ty("Box<dyn Greeter>"), vec![param("greeter", Some("GreeterOne"))]);
    let r = gen_providers_for_provide_attr_on_struct(&vec![(3, f)], &vec![]);
    assert_eq!(r.len(), 1);
    assert_eq!(r[0].attr, 3);
    assert_eq!(r[0].factory.inputs.len(), 1);
    assert_eq!(r[0].factory.inputs[0].key, "GreeterOne");
    assert!(r[0].decorators.is_empty());
}

#[test]
fn provider_reads_imports_and_provided_fields() {
    let s = provider(
        vec![],
        vec![
            field(Some("config"), ty("ConfigModule"), vec![attr("import")]),
            field(Some("pool"), ty("DbPool"), vec![attr("singleton")]),
            field(Some("plain"), ty("u8"), vec![]),
            field(Some("shared"), ref_ty(Some("'a"), "Dep"), vec![attr("provide")]),
        ],
    );
    let plan = handle_provider(s).ok().unwrap();
    assert_eq!(plan.fields.imports, vec![0]);
    let provided: Vec<(usize, Vec<usize>)> = plan.fields.provides.iter().map(|(i, v)| (*i, v.clone())).collect();
    assert_eq!(provided, vec![(1, vec![0]), (3, vec![0])]);
    assert_eq!(plan.field_provides.len(), 2);
    let pool = &plan.field_provides[0][0];
    assert_eq!(pool.field, 1);
    assert!(pool.borrow);
    assert!(matches!(&pool.ty, ProvidedType::Ref(RefLifetime::Prov, t) if t == "DbPool"));
    let shared = &plan.field_provides[1][0];
    assert!(!shared.borrow);
    assert!(matches!(&shared.ty, ProvidedType::Ref(RefLifetime::Field(Some(l)), t) if l == "'a" && t == "Dep"));
    assert!(plan.scopes.is_empty());
}

#[test]
fn provider_field_factory_with_closure_gives_its_type() {
    let f = field(Some("v"), ty("Config"), vec![field_attr("provide", FieldFactorySyntax::TypeClosure(ty("u16"), vec![param("c", None)]))]);
    let imp = provide_impl(&f.attrs[0], &f, 5);
    assert_eq!(imp.field, 5);
    assert!(matches!(&imp.ty, ProvidedType::Given(t) if t.key == "u16"));
    assert_eq!(imp.closure_var.as_deref(), Some("c"));
    let fields = vec![f];
    let out = gen_providers_for_provide_attr_on_fields(&fields, &vec![(0, vec![0])]);
    assert_eq!(out.len(), 1);
    assert_eq!(out[0].len(), 1);
}

#[test]
fn provider_refuses_faulty_fields() {
    let mut bad = attr("inject");
    bad.bare = false;
    let s = provider(vec![], vec![field(Some("a"), ty("u8"), vec![bad])]);
    assert!(matches!(handle_provider(s), Err(ProviderError::Fields(es)) if es.len() == 1 && es[0].0 == 0));
}

#[test]
fn provider_scopes_group_fields_by_scope_name() {
    let s = provider(
        vec![
            scope_attr(Some(scope_field(None, "ScopeDep", vec![]))),
            scope_attr(Some(scope_field(None, "ScopeModule", vec![attr("import")]))),
            scope_attr(Some(scope_field(Some("other"), "&'scope ScopeDep", vec![attr("arg")]))),
            scope_attr(Some(scope_field(Some("other"), "&'scope ModuleDep", vec![attr("arg")]))),
        ],
        vec![field(None, ty("RootDep"), vec![attr("provide")])],
    );
    let plan = handle_provider(s).ok().unwrap();
    assert_eq!(plan.scopes.len(), 2);
    let unnamed = &plan.scopes[0];
    assert_eq!(unnamed.scope_struct_name, "ProviderScope");
    assert_eq!(unnamed.fn_name, "scope");
    assert_eq!(unnamed.fields, vec![0, 1]);
    assert_eq!(unnamed.args, vec![false, false]);
    let other = &plan.scopes[1];
    assert_eq!(other.scope_struct_name, "ProviderOtherScope");
    assert_eq!(other.fn_name, "other_scope");
    assert_eq!(other.fields, vec![2, 3]);
    assert_eq!(other.args, vec![true, true]);
    assert_eq!(other.arg_names, vec!["v0".to_string(), "v1".to_string()]);
}

#[test]
fn provider_refuses_an_unreadable_scope() {
    let s = provider(vec![attr("derive"), scope_attr(Some(scope_field(None, "A", vec![]))), scope_attr(None)], vec![]);
    assert!(matches!(handle_provider(s), Err(ProviderError::Scope(2))));
}

#[test]
fn scope_names_are_made_pascal_case() {
    let fs = vec![Some(scope_field(Some("request_local"), "A", vec![])), Some(scope_field(None, "B", vec![]))];
    let plans = gen_scope_output("App", fs).ok().unwrap();
    assert_eq!(plans[0].scope_struct_name, "AppRequestLocalScope");
    assert_eq!(plans[0].fn_name, "request_local_scope");
    assert_eq!(plans[1].scope_struct_name, "AppScope");
    assert_eq!(gen_scope_output("App", vec![]).ok().unwrap().len(), 0);
    assert_eq!(gen_scope_output("App", vec![Some(scope_field(None, "B", vec![])), None]).err(), Some(1));
}

#[test]
fn provider_attrs_are_sorted_by_name() {
    let attrs = vec![attr("scope"), attr("provide"), attr("decorate"), attr("other"), attr("provide")];
    let p = ProviderAttrs::from_attrs(&attrs);
    assert_eq!(p.provide_attrs, vec![1, 4]);
    assert_eq!(p.decorate_attrs, vec![2]);
    assert_eq!(p.scope_attrs, vec![0]);
}

#[test]
fn provider_fields_from_parsed_fields() {
    let fields = vec![field(Some("m"), ty("M"), vec![attr("import")]), field(Some("d"), ty("D"), vec![attr("provide"), attr("provide")])];
    let parsed = ParsedField::from_fields(&fields).ok().unwrap();
    let pf = provider_fields(&fields, &parsed);
    assert_eq!(pf.imports, vec![0]);
    assert_eq!(pf.provides.len(), 1);
    assert_eq!(pf.provides[0].0, 1);
    assert_eq!(pf.provides[0].1, vec![0, 1]);
}

#[test]
fn field_factory_reading_checks_the_closure() {
    assert!(matches!(parse_field_factory(&FieldFactorySyntax::Empty), Ok(FieldFactoryExpr::Empty)));
    assert!(matches!(parse_field_factory(&FieldFactorySyntax::TypeClosure(ty("A"), vec![])), Err(FieldFactoryError::MissingInput)));
    assert!(matches!(
        parse_field_factory(&FieldFactorySyntax::TypeClosure(ty("A"), vec![param("a", None), param("b", None)])),
        Err(FieldFactoryError::MoreThanOneInput)
    ));
    assert!(matches!(
        parse_field_factory(&FieldFactorySyntax::TypeClosure(ty("A"), vec![param("a", Some("B"))])),
        Err(FieldFactoryError::InputNotIdent)
    ));
    assert!(matches!(
        parse_field_factory(&FieldFactorySyntax::TypeClosure(ty("A"), vec![param("a", None)])),
        Ok(FieldFactoryExpr::TypeExpr(t, v)) if t.key == "A" && v == "a"
    ));
}

#[test]
fn decorator_needs_one_named_parameter() {
    let d = DecorateSyntax { ty: ty("A"), params: vec![] };
    assert!(matches!(parse_decorate(&d), Err(DecorateError::NotExactlyOneParam)));
    let d = DecorateSyntax { ty: ty("A"), params: vec![ClosureParam { ident: None, ty: None }] };
    assert!(matches!(parse_decorate(&d), Err(DecorateError::ParamNotIdent)));
    let d = DecorateSyntax { ty: ty("A"), params: vec![param("inner", None)] };
    assert!(matches!(parse_decorate(&d), Ok(x) if x.var == "inner" && x.ty.key == "A"));
}

#[test]
fn imports_group_exported_types_in_first_export_order() {
    let imports = vec![
        ImportedModule { field: 0, module: 7, exports: vec!["u16".into(), "String".into()] },
        ImportedModule { field: 1, module: 8, exports: vec!["Vec<u8>".into(), "u16".into()] },
    ];
    let plan = gen_imports_for_import_attr(&imports);
    assert_eq!(plan.import_fields, vec![0, 1]);
    let tys: Vec<String> = plan.types.iter().map(|t| t.ty.clone()).collect();
    assert_eq!(tys, vec!["u16".to_string(), "String".to_string(), "Vec<u8>".to_string()]);
    let u16s = &plan.types[0];
    assert_eq!(u16s.provider_field, 1);
    let arms: Vec<(usize, usize, usize)> = u16s.arms.iter().map(|a| (a.index, a.field, a.module_index)).collect();
    assert_eq!(arms, vec![(0, 0, 0), (1, 1, 0)]);
}

#[test]
fn provider_input_is_checked_before_planning() {
    let field = |attrs: Vec<AttrModel>| FieldModel { ident: Some("dep".to_string()), ty: ty("Dep"), attrs };
    let model = |attrs: Vec<AttrModel>, fields: Vec<FieldModel>| StructModel {
        ident: "Provider".to_string(),
        attrs,
        fields,
        generics: vec![],
    };
    assert!(provider_input_ok(&model(vec![], vec![field(vec![attr("provide")])])));
    let two_params = FieldFactorySyntax::TypeClosure(ty("Dep"), vec![param("a", None), param("b", None)]);
    assert!(!provider_input_ok(&model(vec![], vec![field(vec![field_attr("provide", two_params)])])));
    let typed_param = FieldFactorySyntax::TypeClosure(ty("Dep"), vec![param("a", Some("Dep"))]);
    assert!(!provider_input_ok(&model(vec![], vec![field(vec![field_attr("singleton", typed_param)])])));
    let untyped = TypeFactorySyntax::TypeClosure(ty("Dep"), vec![param("a", None)]);
    assert!(!provider_input_ok(&model(vec![provide_struct(untyped)], vec![])));
    assert!(provider_input_ok(&model(vec![provide_struct(TypeFactorySyntax::TypeExpr(ty("u8")))], vec![])));
    let mut decorate = attr("decorate");
    decorate.bare = false;
    decorate.decorate = Some(DecorateSyntax { ty: ty("Dep"), params: vec![] });
    assert!(!provider_input_ok(&model(vec![decorate], vec![])));
}
