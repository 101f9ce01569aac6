use conject_macro::model::{AttrModel, ClosureParam, FieldFactorySyntax, FieldModel, RefInfo, StructModel, TypeFactorySyntax, TypeInfo};
use conject_macro::module::{export_impl, handle_module, module_input_ok, ModuleAttr, ModuleError};
use conject_macro::provider::{ProvidedType, RefLifetime};

fn ty(key: &str) -> TypeInfo {
    let head = key.split('<').next().unwrap();
    let last = head.rsplit("::").next().unwrap().trim().to_string();
    TypeInfo { key: key.to_string(), last_segment: Some(last), reference: None }
}

fn attr(name: &str) -> AttrModel {
    AttrModel {
        name: Some(name.to_string()),
        bare: true,
        inject: None,
        expr_ok: false,
        field_factory: None,
        type_factory: None,
        decorate: None,
        scope: None,
    }
}

fn export_struct(f: Option<TypeFactorySyntax>) -> AttrModel {
    let mut a = attr("export");
    a.bare = false;
    a.type_factory = f;
    a
}

fn typed(name: &str, t: &str) -> ClosureParam {
    ClosureParam { ident: Some(name.to_string()), ty: Some(ty(t)) }
}

fn module(attrs: Vec<AttrModel>, fields: Vec<FieldModel>) -> StructModel {
    StructModel { ident: "ConfigModule".to_string(), attrs, fields, generics: vec![] }
}

#[test]
fn module_exports_are_grouped_by_type_in_first_export_order() {
    let m = module(
        vec![
            export_struct(Some(TypeFactorySyntax::TypeExpr(ty("u16")))),
            attr("injectable"),
            export_struct(Some(TypeFactorySyntax::TypeExpr(ty("String")))),
            export_struct(Some(TypeFactorySyntax::TypeClosure(ty("u16"), vec![typed("port", "Port")]))),
        ],
        vec![],
    );
    let plan = handle_module(&ModuleAttr::Empty, &m).ok().unwrap();
    assert!(plan.public_path.is_none());
    let positions: Vec<usize> = plan.struct_exports.iter().map(|(p, _)| *p).collect();
    assert_eq!(positions, vec![0, 2, 3]);
    assert_eq!(plan.struct_groups, vec![vec![0, 2], vec![1]]);
    assert_eq!(plan.ref_exports, vec![2, 1]);
    assert_eq!(plan.struct_exports[2].1.inputs.len(), 1);
    assert_eq!(plan.struct_exports[2].1.inputs[0].key, "Port");
    assert!(plan.field_exports.is_empty());
}

#[test]
fn module_keeps_its_public_path() {
    let plan = handle_module(&ModuleAttr::Path("crate::config".into()), &module(vec![], vec![])).ok().unwrap();
    assert_eq!(plan.public_path.as_deref(), Some("crate::config"));
}

#[test]
fn module_refuses_a_bad_public_path() {
    assert!(matches!(handle_module(&ModuleAttr::Unparsable, &module(vec![], vec![])), Err(ModuleError::PublicPath)));
}

#[test]
fn module_reports_every_unreadable_struct_export() {
    let m = module(
        vec![
            export_struct(None),
            export_struct(Some(TypeFactorySyntax::TypeExpr(ty("u16")))),
            export_struct(Some(TypeFactorySyntax::TypeClosure(ty("u8"), vec![ClosureParam { ident: Some("p".into()), ty: None }]))),
        ],
        vec![],
    );
    match handle_module(&ModuleAttr::Empty, &m) {
        Err(ModuleError::StructExports(ps)) => assert_eq!(ps, vec![0, 2]),
        _ => panic!("expected struct export errors"),
    }
}

#[test]
fn module_refuses_faulty_fields() {
    let mut bad = attr("late_bind");
    bad.bare = false;
    let m = module(vec![], vec![FieldModel { ident: Some("x".into()), ty: ty("u8"), attrs: vec![bad] }]);
    assert!(matches!(handle_module(&ModuleAttr::Empty, &m), Err(ModuleError::Fields(es)) if es.len() == 1));
}

#[test]
fn module_field_exports_borrow_the_field() {
    let reference = TypeInfo {
        key: "& 'a Dep".into(),
        last_segment: None,
        reference: Some(RefInfo { lifetime: Some("'a".into()), elem_key: "Dep".into() }),
    };
    let mut closure_export = attr("export");
    closure_export.bare = false;
    closure_export.field_factory =
        Some(FieldFactorySyntax::TypeClosure(ty("u16"), vec![ClosureParam { ident: Some("d".into()), ty: None }]));
    let m = module(
        vec![],
        vec![
            FieldModel { ident: Some("dep".into()), ty: ty("ModuleDep"), attrs: vec![attr("export")] },
            FieldModel { ident: Some("other".into()), ty: ty("u8"), attrs: vec![] },
            FieldModel { ident: Some("r".into()), ty: reference, attrs: vec![attr("export"), closure_export] },
        ],
    );
    let plan = handle_module(&ModuleAttr::Empty, &m).ok().unwrap();
    assert_eq!(plan.field_exports.len(), 2);
    assert_eq!(plan.field_exports[0].0, 0);
    let e = &plan.field_exports[0].1[0];
    assert!(e.borrow);
    assert!(matches!(&e.ty, ProvidedType::Ref(RefLifetime::Prov, t) if t == "ModuleDep"));
    assert_eq!(plan.field_exports[1].0, 2);
    let plain = &plan.field_exports[1].1[0];
    assert!(plain.borrow);
    assert!(matches!(&plain.ty, ProvidedType::Ref(RefLifetime::Field(Some(l)), t) if l == "'a" && t == "Dep"));
    let closure = &plan.field_exports[1].1[1];
    assert!(!closure.borrow);
    assert!(matches!(&closure.ty, ProvidedType::Given(t) if t.key == "u16"));
    assert_eq!(closure.closure_var.as_deref(), Some("d"));
}

#[test]
fn export_impl_borrows_unless_a_closure_takes_a_reference_field() {
    let f = FieldModel { ident: None, ty: ty("Dep"), attrs: vec![attr("export")] };
    let e = export_impl(&f.attrs[0], &f, 4);
    assert_eq!(e.field, 4);
    assert!(e.borrow);
    assert!(e.closure_var.is_none());
}

#[test]
fn module_input_is_checked_before_planning() {
    let mut export = attr("export");
    export.bare = false;
    export.field_factory = Some(FieldFactorySyntax::TypeClosure(ty("u8"), vec![]));
    let fields = vec![FieldModel { ident: Some("port".to_string()), ty: ty("u16"), attrs: vec![export] }];
    assert!(!module_input_ok(&ModuleAttr::Empty, &module(vec![], fields)));
    let fields = vec![FieldModel { ident: Some("port".to_string()), ty: ty("u16"), attrs: vec![attr("export")] }];
    assert!(module_input_ok(&ModuleAttr::Empty, &module(vec![], fields)));
    assert!(module_input_ok(&ModuleAttr::Unparsable, &module(vec![], vec![])));
}
