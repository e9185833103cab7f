//! End-to-end checks of the rewriting pass on concrete trees.
use module_generics::ast::{Arg, Bound, GenericParam, Generics, Item, Module, Predicate, Seg, Signature, Ty};
use module_generics::input::{ModuleGenericAttribute, ModuleGenerics, RewriteError};
use module_generics::{RewriteOutput, module_generics};

fn seg(name: &str) -> Seg {
    Seg { name: name.to_string(), args: vec![] }
}

fn bare_path(name: &str) -> Ty {
    Ty::Path(vec![seg(name)])
}

fn trait_bound(name: &str) -> Bound {
    Bound::Trait(vec![seg(name)])
}

fn trait_bound_of(name: &str, arg: &str) -> Bound {
    Bound::Trait(vec![Seg { name: name.to_string(), args: vec![Arg::Ty(bare_path(arg))] }])
}

fn tparam(name: &str, bounds: Vec<Bound>) -> GenericParam {
    GenericParam::Ty { name: name.to_string(), bounds }
}

fn empty_generics() -> Generics {
    Generics { params: vec![], where_preds: vec![] }
}

fn func(inputs: Vec<Ty>, output: Option<Ty>) -> Item {
    Item::Function { sig: Signature { generics: empty_generics(), inputs, output } }
}

fn module(name: &str, items: Vec<Item>) -> Module {
    Module { ident: name.to_string(), content: Some(items) }
}

fn tparam_summary(p: &GenericParam) -> (String, Vec<String>) {
    match p {
        GenericParam::Ty { name, bounds } => {
            let bs = bounds
                .iter()
                .map(|b| match b {
                    Bound::Trait(segs) => segs
                        .iter()
                        .map(|s| {
                            let mut t = s.name.clone();
                            for a in &s.args {
                                if let Arg::Ty(Ty::Path(inner)) = a {
                                    t.push('<');
                                    t.push_str(&inner[0].name);
                                    t.push('>');
                                }
                            }
                            t
                        })
                        .collect::<Vec<_>>()
                        .join("::"),
                    Bound::Lifetime(n) => n.clone(),
                })
                .collect();
            (name.clone(), bs)
        }
        GenericParam::Lifetime(n) => (n.clone(), vec![]),
        GenericParam::Const { name, .. } => (name.clone(), vec![]),
    }
}

fn unwrap_items(r: Result<RewriteOutput, RewriteError>) -> Vec<Item> {
    match r {
        Ok(RewriteOutput::Items(v)) => v,
        Ok(RewriteOutput::Wrapped(m)) => m.content.expect("rewritten module has a body"),
        Err(_) => panic!("rewrite failed"),
    }
}

#[test]
fn show_gains_only_its_generic() {
    // Declared `T: Clone, U: Debug`, body `fn show(t: T)`: `show` gains
    // `T: Clone` alone, and no where clause.
    let attr = ModuleGenericAttribute {
        generics: vec![tparam("T", vec![trait_bound("Clone")]), tparam("U", vec![trait_bound("Debug")])],
        where_clause: None,
    };
    let m = module("__", vec![func(vec![bare_path("T")], None)]);
    let items = unwrap_items(module_generics(attr, m));
    assert_eq!(items.len(), 1);
    match &items[0] {
        Item::Function { sig } => {
            let names: Vec<_> = sig.generics.params.iter().map(tparam_summary).collect();
            assert_eq!(names, vec![("T".to_string(), vec!["Clone".to_string()])]);
            assert!(sig.generics.where_preds.is_empty());
        }
        _ => panic!("expected a function"),
    }
}

#[test]
fn dependency_is_pulled_in_transitively() {
    // Declared `T, U: SomeTrait<T>`, body `fn f(u: U)`: `f` gains
    // `T, U: SomeTrait<T>` — `T` arrives through the dependency alone.
    let attr = ModuleGenericAttribute {
        generics: vec![tparam("T", vec![]), tparam("U", vec![trait_bound_of("SomeTrait", "T")])],
        where_clause: None,
    };
    let m = module("__", vec![func(vec![bare_path("U")], None)]);
    let items = unwrap_items(module_generics(attr, m));
    match &items[0] {
        Item::Function { sig } => {
            let mut names: Vec<_> = sig.generics.params.iter().map(tparam_summary).collect();
            names.sort();
            assert_eq!(
                names,
                vec![
                    ("T".to_string(), vec![]),
                    ("U".to_string(), vec!["SomeTrait<T>".to_string()]),
                ]
            );
        }
        _ => panic!("expected a function"),
    }
}

#[test]
fn impl_scope_is_narrowed_for_inner_items() {
    // Module generics `{T, U}`; an impl whose self type already declares
    // `T` in its own generics: an inner function referencing `T` gets no
    // new parameter for it, but one referencing `U` still gets `U`.
    let attr = ModuleGenericAttribute {
        generics: vec![tparam("T", vec![]), tparam("U", vec![])],
        where_clause: None,
    };
    let self_ty = Ty::Path(vec![Seg {
        name: "Holder".to_string(),
        args: vec![Arg::Ty(bare_path("T"))],
    }]);
    let imp = Item::Impl {
        generics: Generics { params: vec![tparam("T", vec![])], where_preds: vec![] },
        trait_path: None,
        self_ty,
        items: vec![func(vec![bare_path("T")], None), func(vec![bare_path("U")], None)],
    };
    let m = module("__", vec![imp]);
    let items = unwrap_items(module_generics(attr, m));
    match &items[0] {
        Item::Impl { generics, items, .. } => {
            let outer: Vec<_> = generics.params.iter().map(|p| tparam_summary(p).0).collect();
            assert_eq!(outer, vec!["T".to_string()]);
            match &items[0] {
                Item::Function { sig } => assert!(sig.generics.params.is_empty()),
                _ => panic!("expected a function"),
            }
            match &items[1] {
                Item::Function { sig } => {
                    let names: Vec<_> =
                        sig.generics.params.iter().map(|p| tparam_summary(p).0).collect();
                    assert_eq!(names, vec!["U".to_string()]);
                }
                _ => panic!("expected a function"),
            }
        }
        _ => panic!("expected an impl"),
    }
}

#[test]
fn existing_parameter_is_not_duplicated() {
    // A function that already declares `T` and uses it: one `T` parameter
    // afterwards, with the module's bound merged in.
    let attr = ModuleGenericAttribute {
        generics: vec![tparam("T", vec![trait_bound("Clone")])],
        where_clause: None,
    };
    let f = Item::Function {
        sig: Signature {
            generics: Generics { params: vec![tparam("T", vec![])], where_preds: vec![] },
            inputs: vec![bare_path("T")],
            output: None,
        },
    };
    let m = module("__", vec![f]);
    let items = unwrap_items(module_generics(attr, m));
    match &items[0] {
        Item::Function { sig } => {
            let names: Vec<_> = sig.generics.params.iter().map(tparam_summary).collect();
            assert_eq!(names, vec![("T".to_string(), vec!["Clone".to_string()])]);
        }
        _ => panic!("expected a function"),
    }
}

#[test]
fn existing_bound_is_not_appended_again() {
    // The function's own `T` already carries `Clone`, textually the same
    // as the declared bound: it stays single.
    let attr = ModuleGenericAttribute {
        generics: vec![tparam("T", vec![trait_bound("Clone")])],
        where_clause: None,
    };
    let f = Item::Function {
        sig: Signature {
            generics: Generics {
                params: vec![tparam("T", vec![trait_bound("Clone")])],
                where_preds: vec![],
            },
            inputs: vec![bare_path("T")],
            output: None,
        },
    };
    let m = module("__", vec![f]);
    let items = unwrap_items(module_generics(attr, m));
    match &items[0] {
        Item::Function { sig } => {
            let names: Vec<_> = sig.generics.params.iter().map(tparam_summary).collect();
            assert_eq!(names, vec![("T".to_string(), vec!["Clone".to_string()])]);
        }
        _ => panic!("expected a function"),
    }
}

#[test]
fn rewriting_twice_changes_nothing() {
    // Idempotence on a concrete tree: a second application of the same
    // model leaves every parameter list, bound list and where clause as
    // the first pass made them.
    let mk_attr = || ModuleGenericAttribute {
        generics: vec![
            tparam("T", vec![trait_bound("Clone")]),
            tparam("U", vec![trait_bound_of("SomeTrait", "T")]),
        ],
        where_clause: None,
    };
    let m = module("demo", vec![func(vec![bare_path("U")], Some(bare_path("T")))]);
    let first = match module_generics(mk_attr(), m).unwrap() {
        RewriteOutput::Wrapped(md) => md,
        _ => panic!("expected the wrapped module"),
    };
    let first_summary: Vec<_> = match &first.content.as_ref().unwrap()[0] {
        Item::Function { sig } => sig.generics.params.iter().map(tparam_summary).collect(),
        _ => panic!("expected a function"),
    };
    let mut sorted_first = first_summary.clone();
    sorted_first.sort();
    let second = match module_generics(mk_attr(), first).unwrap() {
        RewriteOutput::Wrapped(md) => md,
        _ => panic!("expected the wrapped module"),
    };
    let second_summary: Vec<_> = match &second.content.as_ref().unwrap()[0] {
        Item::Function { sig } => {
            assert!(sig.generics.where_preds.is_empty());
            sig.generics.params.iter().map(tparam_summary).collect()
        }
        _ => panic!("expected a function"),
    };
    assert_eq!(first_summary, second_summary);
    assert_eq!(
        sorted_first,
        vec![
            ("T".to_string(), vec!["Clone".to_string()]),
            ("U".to_string(), vec!["SomeTrait<T>".to_string()]),
        ]
    );
}

#[test]
fn non_type_parameter_is_rejected() {
    let attr = ModuleGenericAttribute {
        generics: vec![tparam("T", vec![]), GenericParam::Lifetime("'a".to_string())],
        where_clause: None,
    };
    let m = module("demo", vec![]);
    assert!(matches!(module_generics(attr, m), Err(RewriteError::DeclarationError)));
}

#[test]
fn bodyless_module_is_rejected() {
    let attr = ModuleGenericAttribute { generics: vec![tparam("T", vec![])], where_clause: None };
    let m = Module { ident: "demo".to_string(), content: None };
    assert!(matches!(module_generics(attr, m), Err(RewriteError::StructuralError)));
}

#[test]
fn placeholder_module_is_unwrapped() {
    let attr = ModuleGenericAttribute { generics: vec![tparam("T", vec![])], where_clause: None };
    assert!(matches!(
        module_generics(attr, module("__", vec![])),
        Ok(RewriteOutput::Items(_))
    ));
    let attr2 = ModuleGenericAttribute { generics: vec![tparam("T", vec![])], where_clause: None };
    match module_generics(attr2, module("named", vec![Item::Other])) {
        Ok(RewriteOutput::Wrapped(md)) => {
            assert_eq!(md.ident, "named");
            assert!(matches!(md.content.as_deref(), Some([Item::Other])));
        }
        _ => panic!("expected the wrapped module"),
    }
}

#[test]
fn untouched_items_pass_through() {
    let attr = ModuleGenericAttribute { generics: vec![tparam("T", vec![])], where_clause: None };
    let m = module("__", vec![Item::Other, func(vec![], None)]);
    let items = unwrap_items(module_generics(attr, m));
    assert!(matches!(items[0], Item::Other));
    match &items[1] {
        Item::Function { sig } => assert!(sig.generics.params.is_empty()),
        _ => panic!("expected a function"),
    }
}

#[test]
fn predicate_follows_its_generic() {
    // Declared `{T, V}` with `where V: Send`: a function using only `T`
    // gets no predicate; one using `V` gets it appended.
    let mk_attr = || ModuleGenericAttribute {
        generics: vec![tparam("T", vec![]), tparam("V", vec![])],
        where_clause: Some(vec![Predicate {
            subject: bare_path("V"),
            bounds: vec![trait_bound("Send")],
        }]),
    };
    let m = module("__", vec![func(vec![bare_path("T")], None), func(vec![bare_path("V")], None)]);
    let items = unwrap_items(module_generics(mk_attr(), m));
    match &items[0] {
        Item::Function { sig } => assert!(sig.generics.where_preds.is_empty()),
        _ => panic!("expected a function"),
    }
    match &items[1] {
        Item::Function { sig } => {
            assert_eq!(sig.generics.where_preds.len(), 1);
            match &sig.generics.where_preds[0].subject {
                Ty::Path(segs) => assert_eq!(segs[0].name, "V"),
                _ => panic!("expected a path subject"),
            }
        }
        _ => panic!("expected a function"),
    }
}

#[test]
fn trait_scope_is_narrowed_for_inner_items() {
    // A trait that itself references `T` gains it once; an inner function
    // mentioning `T` again has nothing injected.
    let attr = ModuleGenericAttribute {
        generics: vec![tparam("T", vec![trait_bound("Clone")])],
        where_clause: None,
    };
    let tr = Item::Trait {
        generics: Generics {
            params: vec![tparam("S", vec![trait_bound_of("Into", "T")])],
            where_preds: vec![],
        },
        items: vec![func(vec![bare_path("T")], None)],
    };
    let m = module("__", vec![tr]);
    let items = unwrap_items(module_generics(attr, m));
    match &items[0] {
        Item::Trait { generics, items } => {
            let names: Vec<_> = generics.params.iter().map(|p| tparam_summary(p).0).collect();
            assert_eq!(names, vec!["S".to_string(), "T".to_string()]);
            match &items[0] {
                Item::Function { sig } => assert!(sig.generics.params.is_empty()),
                _ => panic!("expected a function"),
            }
        }
        _ => panic!("expected a trait"),
    }
}

#[test]
fn present_predicate_is_not_duplicated() {
    // The function's where clause already holds the declared predicate: it
    // is not appended a second time.
    let mk_pred = || Predicate { subject: bare_path("T"), bounds: vec![trait_bound("Send")] };
    let attr = ModuleGenericAttribute {
        generics: vec![tparam("T", vec![])],
        where_clause: Some(vec![mk_pred()]),
    };
    let f = Item::Function {
        sig: Signature {
            generics: Generics { params: vec![], where_preds: vec![mk_pred()] },
            inputs: vec![bare_path("T")],
            output: None,
        },
    };
    let m = module("__", vec![f]);
    let items = unwrap_items(module_generics(attr, m));
    match &items[0] {
        Item::Function { sig } => assert_eq!(sig.generics.where_preds.len(), 1),
        _ => panic!("expected a function"),
    }
}

#[test]
fn nested_generic_argument_is_found() {
    // `fn g(u: impl IntoIterator<Item = U>)`: `U` sits in an
    // associated-type binding inside an `impl Trait` bound and is still
    // injected.
    let attr = ModuleGenericAttribute {
        generics: vec![tparam("U", vec![trait_bound("Debug")])],
        where_clause: None,
    };
    let arg_ty = Ty::ImplTrait(vec![Bound::Trait(vec![Seg {
        name: "IntoIterator".to_string(),
        args: vec![Arg::Assoc { name: "Item".to_string(), ty: bare_path("U") }],
    }])]);
    let m = module("__", vec![func(vec![arg_ty], None)]);
    let items = unwrap_items(module_generics(attr, m));
    match &items[0] {
        Item::Function { sig } => {
            let names: Vec<_> = sig.generics.params.iter().map(tparam_summary).collect();
            assert_eq!(names, vec![("U".to_string(), vec!["Debug".to_string()])]);
        }
        _ => panic!("expected a function"),
    }
}

#[test]
fn qualified_path_is_not_a_reference() {
    // `fn f(x: outer::T)`: the outer segment disqualifies the path, so the
    // declared `T` is not considered referenced.
    let attr = ModuleGenericAttribute { generics: vec![tparam("T", vec![])], where_clause: None };
    let qualified = Ty::Path(vec![seg("outer"), seg("T")]);
    let m = module("__", vec![func(vec![qualified], None)]);
    let items = unwrap_items(module_generics(attr, m));
    match &items[0] {
        Item::Function { sig } => assert!(sig.generics.params.is_empty()),
        _ => panic!("expected a function"),
    }
}

#[test]
fn closure_and_dependencies_are_exact() {
    // Declared `{A, B: A, C: B}`: closing `{C}` adds `{B, A}`; closing
    // `{A}` adds nothing.
    let attr = ModuleGenericAttribute {
        generics: vec![
            tparam("A", vec![]),
            tparam("B", vec![trait_bound("A")]),
            tparam("C", vec![trait_bound("B")]),
        ],
        where_clause: None,
    };
    let mg = ModuleGenerics::from_attribute(attr).unwrap();
    let mut from_c = mg.get_dependencies(&vec!["C".to_string()]);
    from_c.sort();
    assert_eq!(from_c, vec!["A".to_string(), "B".to_string()]);
    let from_a = mg.get_dependencies(&vec!["A".to_string()]);
    assert!(from_a.is_empty());
}

#[test]
fn cyclic_dependencies_terminate() {
    // Declared `{A: B, B: A}`: closing `{A}` terminates and yields exactly
    // `{A, B}`, so the additions are exactly `{B}`.
    let attr = ModuleGenericAttribute {
        generics: vec![
            tparam("A", vec![trait_bound("B")]),
            tparam("B", vec![trait_bound("A")]),
        ],
        where_clause: None,
    };
    let mg = ModuleGenerics::from_attribute(attr).unwrap();
    let from_a = mg.get_dependencies(&vec!["A".to_string()]);
    assert_eq!(from_a, vec!["B".to_string()]);
}
