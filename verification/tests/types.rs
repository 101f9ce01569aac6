use conject_macro::types::{
    can_substitute, collect_lifetimes_from_type, extract_path_from_type, is_path_type, module_key, substitute_in_path, substitute_in_type, ArgShape, ArgsShape,
    BoundShape, PathShape, SegmentShape, TypeShape,
};

fn seg(name: &str, args: ArgsShape) -> SegmentShape {
    SegmentShape { ident: name.to_string(), args }
}

fn simple(name: &str) -> TypeShape {
    TypeShape::Path(PathShape { leading_colon: false, segments: vec![seg(name, ArgsShape::Plain)] })
}

fn names(t: &TypeShape) -> Vec<String> {
    let mut out = Vec::new();
    walk(t, &mut out);
    out
}

fn walk(t: &TypeShape, out: &mut Vec<String>) {
    match t {
        TypeShape::Path(p) => walk_path(p, out),
        TypeShape::Reference(_, _, e) => walk(e, out),
        TypeShape::TraitObject(bs) => {
            for b in bs {
                if let BoundShape::Trait(p) = b {
                    walk_path(p, out)
                }
            }
        }
        TypeShape::Other(s) => out.push(format!("other:{s}")),
    }
}

fn walk_path(p: &PathShape, out: &mut Vec<String>) {
    for s in &p.segments {
        out.push(s.ident.clone());
        match &s.args {
            ArgsShape::Plain => {}
            ArgsShape::Angle(a) => {
                for x in a {
                    match x {
                        ArgShape::Type(t) => walk(t, out),
                        ArgShape::AssocType(n, _, t) => {
                            out.push(format!("assoc:{n}"));
                            walk(t, out)
                        }
                        ArgShape::Constraint(n, _, bs) => {
                            out.push(format!("constraint:{n}"));
                            for b in bs {
                                if let BoundShape::Trait(p) = b {
                                    walk_path(p, out)
                                }
                            }
                        }
                        ArgShape::Lifetime(l) => out.push(l.clone()),
                        ArgShape::Other(o) => out.push(format!("other:{o}")),
                    }
                }
            }
            ArgsShape::Paren(i, o) => {
                for t in i {
                    walk(t, out)
                }
                if let Some(o) = o {
                    out.push(format!("output:{o}"))
                }
            }
        }
    }
}

#[test]
fn substitute_renames_self_everywhere_the_walk_goes() {
    let inner = TypeShape::Path(PathShape {
        leading_colon: false,
        segments: vec![seg("Vec", ArgsShape::Angle(vec![ArgShape::Type(simple("Self")), ArgShape::Lifetime("'a".into())]))],
    });
    let fn_like = TypeShape::Path(PathShape {
        leading_colon: false,
        segments: vec![seg("Fn", ArgsShape::Paren(vec![simple("Self")], Some("Self".into())))],
    });
    let dyn_ty = TypeShape::TraitObject(vec![
        BoundShape::Trait(PathShape { leading_colon: false, segments: vec![seg("Self", ArgsShape::Plain)] }),
        BoundShape::Other("'static".into()),
    ]);
    let mut t = TypeShape::Path(PathShape {
        leading_colon: true,
        segments: vec![
            seg("Self", ArgsShape::Plain),
            seg(
                "Wrap",
                ArgsShape::Angle(vec![
                    ArgShape::Type(inner),
                    ArgShape::Type(fn_like),
                    ArgShape::AssocType("Item".into(), None, simple("Self")),
                    ArgShape::Type(TypeShape::Reference(None, true, Box::new(dyn_ty))),
                    ArgShape::Other("3".into()),
                ]),
            ),
        ],
    });
    substitute_in_type(&mut t, "Self", "ConfigModule");
    assert_eq!(
        names(&t),
        vec![
            "ConfigModule", "Wrap", "Vec", "ConfigModule", "'a", "Fn", "ConfigModule", "output:Self", "assoc:Item",
            "ConfigModule", "ConfigModule", "other:3"
        ]
    );
    assert!(matches!(&t, TypeShape::Path(p) if p.leading_colon));
}

#[test]
fn substitute_leaves_other_names_alone() {
    let mut t = simple("Selfish");
    substitute_in_type(&mut t, "Self", "X");
    assert_eq!(names(&t), vec!["Selfish"]);
    let mut p = PathShape { leading_colon: false, segments: vec![seg("Self", ArgsShape::Plain), seg("Item", ArgsShape::Plain)] };
    substitute_in_path(&mut p, "Self", "M");
    assert_eq!(p.segments[0].ident, "M");
    assert_eq!(p.segments[1].ident, "Item");
}

#[test]
fn collect_lifetimes_skips_known_ones() {
    let t = TypeShape::Reference(
        Some("'a".into()),
        false,
        Box::new(TypeShape::Path(PathShape {
            leading_colon: false,
            segments: vec![seg("M", ArgsShape::Angle(vec![ArgShape::Lifetime("'b".into()), ArgShape::Lifetime("'a".into())]))],
        })),
    );
    let mut found = vec!["'b".to_string()];
    collect_lifetimes_from_type(&t, &mut found);
    assert_eq!(found, vec!["'b".to_string(), "'a".to_string()]);
}

#[test]
fn collect_lifetimes_ignores_trait_objects_and_parenthesized_arguments() {
    let t = TypeShape::Path(PathShape {
        leading_colon: false,
        segments: vec![seg("Fn", ArgsShape::Paren(vec![TypeShape::Reference(Some("'x".into()), false, Box::new(simple("A")))], None))],
    });
    let mut found = Vec::new();
    collect_lifetimes_from_type(&t, &mut found);
    assert!(found.is_empty());
    collect_lifetimes_from_type(&TypeShape::TraitObject(vec![BoundShape::Other("'y".into())]), &mut found);
    assert!(found.is_empty());
}

#[test]
fn extract_path_looks_through_references() {
    let t = TypeShape::Reference(None, false, Box::new(TypeShape::Reference(Some("'a".into()), false, Box::new(simple("Dep")))));
    assert_eq!(extract_path_from_type(&t).segments[0].ident, "Dep");
}

#[test]
fn can_substitute_only_through_paths_references_and_trait_objects() {
    assert!(can_substitute(&simple("A")));
    assert!(!can_substitute(&TypeShape::Other("(A, B)".into())));
    let nested = TypeShape::Path(PathShape {
        leading_colon: false,
        segments: vec![seg("Vec", ArgsShape::Angle(vec![ArgShape::Type(TypeShape::Other("[u8; 4]".into()))]))],
    });
    assert!(!can_substitute(&nested));
    let fine = TypeShape::Path(PathShape {
        leading_colon: false,
        segments: vec![seg("Vec", ArgsShape::Angle(vec![ArgShape::Other("3".into()), ArgShape::Type(simple("B"))]))],
    });
    assert!(can_substitute(&fine));
    assert!(can_substitute(&TypeShape::TraitObject(vec![BoundShape::Other("'a".into())])));
}

#[test]
fn module_key_is_the_last_path_segment() {
    let p = TypeShape::Path(PathShape {
        leading_colon: true,
        segments: vec![seg("lib1", ArgsShape::Plain), seg("Module1", ArgsShape::Plain)],
    });
    assert!(is_path_type(&p));
    assert_eq!(module_key(&p), Some("Module1".to_string()));
    let r = TypeShape::Reference(Some("'a".to_string()), false, Box::new(simple("Module2")));
    assert_eq!(module_key(&r), Some("Module2".to_string()));
    assert_eq!(module_key(&TypeShape::Other("(u8, u16)".to_string())), None);
    assert!(!is_path_type(&TypeShape::TraitObject(vec![])));
}
