//! A scoped, transitive, idempotent rewriting pass over a module-shaped item
//! tree: module-level generic type parameters, with their bounds and
//! where-clause predicates, are injected into every item that references
//! them, transitively through the dependencies between the generics.
//!
//! The pass consumes a structured declaration and a structured module body
//! and yields a structured module body; turning text into these trees and
//! back is left to the caller.
pub mod ast;
pub mod edit;
pub mod input;
pub mod utils;

use vstd::prelude::*;

use crate::ast::{Item, Module, abs_items, abs_params};
use crate::edit::{ItemExtendingVisit, items_rw};
use crate::input::{
    ModuleGenericAttribute, ModuleGenerics, RewriteError, all_type_params, attr_preds, build_model,
};

verus! {

/// What a successful application yields: the rewritten module, or — when
/// the container's name is the placeholder `__` — its rewritten items
/// alone, with the wrapping container discarded.
pub enum RewriteOutput {
    Items(Vec<Item>),
    Wrapped(Module),
}

/// Applies the whole transformation: builds the model from the
/// declaration, rejecting any non-type parameter; rejects a bodyless
/// container; and rewrites every item of the body under an empty skip set.
///
/// It fails with `DeclarationError` exactly when the declaration holds a
/// non-type parameter, and with `StructuralError` exactly when the
/// declaration is fine but the container has no body; otherwise it
/// succeeds, unwrapping the container when its name is `__`.
pub fn module_generics(attr: ModuleGenericAttribute, item: Module) -> (r: Result<
    RewriteOutput,
    RewriteError,
>)
    ensures
        ({
            let aps = abs_params(attr.generics@, attr.generics@.len() as int);
            let m = build_model(aps, attr_preds(attr));
            let rewritten = match item.content {
                Some(c) => items_rw(
                    m,
                    Set::empty(),
                    abs_items(c@, c@.len() as int),
                    c@.len() as int,
                ),
                None => Seq::empty(),
            };
            match r {
                Result::Err(e) => (e == RewriteError::DeclarationError && !all_type_params(aps))
                    || (e == RewriteError::StructuralError && all_type_params(aps)
                    && item.content is None),
                Result::Ok(out) => all_type_params(aps) && item.content is Some && (match out {
                    RewriteOutput::Items(v) => item.ident@ == "__"@ && abs_items(
                        v@,
                        v@.len() as int,
                    ) == rewritten,
                    RewriteOutput::Wrapped(md) => item.ident@ != "__"@ && md.ident@
                        == item.ident@ && (match md.content {
                        Some(c2) => abs_items(c2@, c2@.len() as int) == rewritten,
                        None => false,
                    }),
                }),
            }
        }),
{
    let mg = match ModuleGenerics::from_attribute(attr) {
        Ok(v) => v,
        Err(e) => {
            return Err(e);
        },
    };
    let Module { ident, content } = item;
    let content = match content {
        Some(c) => c,
        None => {
            return Err(RewriteError::StructuralError);
        },
    };
    let root = ItemExtendingVisit::new();
    let new_items = root.visit_items(&mg, &content);
    let placeholder = String::from_str("__");
    if ident == placeholder {
        Ok(RewriteOutput::Items(new_items))
    } else {
        Ok(RewriteOutput::Wrapped(Module { ident, content: Some(new_items) }))
    }
}

} // verus!
