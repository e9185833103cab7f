//! The scoped rewriter: walks the item tree top-down and, at every
//! generic-bearing site, injects the referenced module generics — closed
//! transitively through their dependencies — together with their bounds
//! and the applicable where-clause predicates. A skip set names the
//! generics an enclosing trait or impl already declares; those are never
//! injected again.
use vstd::prelude::*;

use crate::ast::{
    Bound, BoundS, GenericParam, Generics, GenericsS, Item, ItemS, ParamS, PredS, Predicate, Seg,
    SegS, Signature, SigS, Ty, TyS, abs_bounds, abs_generics, abs_item, abs_items, abs_param,
    abs_params, abs_pred, abs_preds, abs_seg, abs_segs, abs_sig, abs_ty, abs_tys, clone_bound,
    clone_generics, clone_predicate, clone_signature, lemma_abs_bounds, lemma_abs_items,
    lemma_abs_params, lemma_abs_preds, lemma_abs_segs, lemma_abs_tys,
};
use crate::input::{
    ModelS, ModuleGenerics, abs_model, bounds_of, closure, dep_of, find_name,
    lemma_closure_includes, lemma_closure_step, lemma_name_index_unique, model_wf,
};
use crate::utils::{
    args_refs, bound_refs, bounds_refs, compare_bounds, compare_predicates, generics_refs,
    get_generics_mod_generics, lemma_nset_elem, lemma_nset_pick, nset, param_refs,
    params_refs, pred_refs, preds_refs, str_in, ty_mentions, ty_refs, tys_refs,
};
use crate::input::{param_bounds, param_is_type, param_name};
use crate::ast::abs_bound;

verus! {

broadcast use
    vstd::seq::axiom_seq_index_decreases,
    vstd::std_specs::vec::axiom_vec_index_decreases,
    vstd::std_specs::vec::axiom_vec_decreases_to_view;

// ---------------------------------------------------------------------------
// What one rewriting step does, mathematically
// ---------------------------------------------------------------------------

pub open spec fn is_tparam_named(p: ParamS, x: Seq<char>) -> bool {
    match p {
        ParamS::Ty { name, bounds: _ } => name == x,
        ParamS::Lifetime(_) => false,
        ParamS::Const { name: _, ty: _ } => false,
    }
}

/// A type parameter with this name is already present at the site.
pub open spec fn has_tparam(ps: Seq<ParamS>, x: Seq<char>) -> bool {
    exists|k: int| 0 <= k < ps.len() && is_tparam_named(#[trigger] ps[k], x)
}

/// The names of the type parameters present at a site.
pub open spec fn tparam_names(ps: Seq<ParamS>) -> Set<Seq<char>> {
    Set::new(|x: Seq<char>| has_tparam(ps, x))
}

/// Appends a bare type parameter of that name, unless the scope skips the
/// name or a parameter of that name is already present.
pub open spec fn insert_param(
    skip: Set<Seq<char>>,
    ps: Seq<ParamS>,
    name: Seq<char>,
) -> Seq<ParamS> {
    if skip.contains(name) || has_tparam(ps, name) {
        ps
    } else {
        ps.push(ParamS::Ty { name, bounds: Seq::empty() })
    }
}

/// Walks the first `j` declared names in declaration order and inserts
/// each member of `cl` that is still missing.
pub open spec fn inject_upto(
    order: Seq<Seq<char>>,
    cl: Set<Seq<char>>,
    skip: Set<Seq<char>>,
    ps: Seq<ParamS>,
    j: int,
) -> Seq<ParamS>
    decreases j,
{
    if j <= 0 {
        ps
    } else {
        let prev = inject_upto(order, cl, skip, ps, j - 1);
        if cl.contains(order[j - 1]) {
            insert_param(skip, prev, order[j - 1])
        } else {
            prev
        }
    }
}

/// The declared bounds that the parameter does not already carry, in
/// declaration order; the comparison is structural.
pub open spec fn missing_bounds(declared: Seq<BoundS>, have: Seq<BoundS>) -> Seq<BoundS> {
    declared.filter(|b: BoundS| !have.contains(b))
}

/// Appends to a declared-named type parameter the declared bounds it does
/// not already carry; any other parameter is left untouched.
pub open spec fn add_bounds_param(m: ModelS, p: ParamS) -> ParamS {
    match p {
        ParamS::Ty { name, bounds } => if m.order.contains(name) {
            ParamS::Ty { name, bounds: bounds + missing_bounds(bounds_of(m, name), bounds) }
        } else {
            p
        },
        ParamS::Lifetime(_) => p,
        ParamS::Const { name: _, ty: _ } => p,
    }
}

pub open spec fn add_bounds(m: ModelS, ps: Seq<ParamS>) -> Seq<ParamS> {
    Seq::new(ps.len(), |i: int| add_bounds_param(m, ps[i]))
}

/// The declared predicates appended at a site: among the first `j`, those
/// whose mentioned names all lie in the closed set and which are not
/// already structurally present in the site's own where clause.
pub open spec fn sel_preds_upto(
    m: ModelS,
    cl: Set<Seq<char>>,
    orig: Seq<PredS>,
    j: int,
) -> Seq<PredS>
    decreases j,
{
    if j <= 0 || j > m.preds.len() {
        Seq::empty()
    } else {
        sel_preds_upto(m, cl, orig, j - 1) + (if m.pred_namess[j - 1].subset_of(cl)
            && !orig.contains(m.preds[j - 1]) {
            seq![m.preds[j - 1]]
        } else {
            Seq::empty()
        })
    }
}

/// The declared generics a site references, outside the skip set.
pub open spec fn site_used(m: ModelS, skip: Set<Seq<char>>, g: GenericsS) -> Set<Seq<char>> {
    generics_refs(g).intersect(m.order.to_set()).difference(skip)
}

/// The site's final closed generic set: the transitive closure of what it
/// uses, with the skipped names left out.
pub open spec fn site_closure(m: ModelS, skip: Set<Seq<char>>, g: GenericsS) -> Set<Seq<char>> {
    closure(m, site_used(m, skip, g)).difference(skip)
}

/// One full generic-list step: inject the closed set in declaration order,
/// attach missing bounds to every declared-named parameter, and append the
/// applicable predicates not already present.
pub open spec fn expand_spec(m: ModelS, skip: Set<Seq<char>>, g: GenericsS) -> GenericsS {
    let cl = site_closure(m, skip, g);
    GenericsS {
        params: add_bounds(m, inject_upto(m.order, cl, skip, g.params, m.order.len() as int)),
        preds: g.preds + sel_preds_upto(m, cl, g.preds, m.preds.len() as int),
    }
}

// ---------------------------------------------------------------------------
// Small executable helpers
// ---------------------------------------------------------------------------

/// Whether the bound list already holds a structurally equal bound.
fn vec_contains_bound(l: &Vec<Bound>, b: &Bound) -> (r: bool)
    ensures
        r == abs_bounds(l@, l@.len() as int).contains(abs_bound(*b)),
{
    proof {
        lemma_abs_bounds(l@, l@.len() as int);
    }
    let ghost al = abs_bounds(l@, l@.len() as int);
    let ghost target = abs_bound(*b);
    let mut i: usize = 0;
    while i < l.len()
        invariant
            0 <= i <= l@.len(),
            al == abs_bounds(l@, l@.len() as int),
            al.len() == l@.len(),
            forall|k: int| 0 <= k < l@.len() ==> al[k] == abs_bound(l@[k]),
            target == abs_bound(*b),
            forall|k: int| 0 <= k < i ==> al[k] != target,
        decreases l@.len() - i,
    {
        if compare_bounds(&l[i], b) {
            proof {
                assert(al[i as int] == target);
            }
            return true;
        }
        i += 1;
    }
    proof {
        if al.contains(target) {
            let k = choose|k: int| 0 <= k < al.len() && al[k] == target;
        }
    }
    false
}

/// Whether one of the first `n` predicates of the list is structurally
/// equal to the given one.
fn preds_contain(l: &Vec<Predicate>, n: usize, p: &Predicate) -> (r: bool)
    requires
        n <= l@.len(),
    ensures
        r == (exists|k: int| 0 <= k < n && abs_pred(#[trigger] l@[k]) == abs_pred(*p)),
{
    let ghost target = abs_pred(*p);
    let mut i: usize = 0;
    while i < n
        invariant
            0 <= i <= n <= l@.len(),
            target == abs_pred(*p),
            forall|k: int| 0 <= k < i ==> abs_pred(#[trigger] l@[k]) != target,
        decreases n - i,
    {
        if compare_predicates(&l[i], p) {
            return true;
        }
        i += 1;
    }
    false
}

/// Whether every name of the first list occurs in the second.
fn names_subset(a: &Vec<String>, b: &Vec<String>) -> (r: bool)
    ensures
        r == nset(a@).subset_of(nset(b@)),
{
    let mut i: usize = 0;
    while i < a.len()
        invariant
            0 <= i <= a@.len(),
            forall|k: int| 0 <= k < i ==> nset(b@).contains(#[trigger] a@[k]@),
        decreases a@.len() - i,
    {
        if !str_in(b, &a[i]) {
            proof {
                lemma_nset_elem(a@, i as int);
            }
            return false;
        }
        i += 1;
    }
    proof {
        assert forall|x: Seq<char>| nset(a@).contains(x) implies nset(b@).contains(x) by {
            lemma_nset_pick(a@, x);
            let k = choose|k: int| 0 <= k < a@.len() && a@[k]@ == x;
        }
    }
    true
}

proof fn lemma_filter_take_step(l: Seq<BoundS>, pred: spec_fn(BoundS) -> bool, j: int)
    requires
        0 <= j < l.len(),
    ensures
        l.take(j + 1).filter(pred) == if pred(l[j]) {
            l.take(j).filter(pred).push(l[j])
        } else {
            l.take(j).filter(pred)
        },
{
    reveal(Seq::filter);
    let s = l.take(j + 1);
    assert(s.drop_last() =~= l.take(j));
    assert(s.last() == l[j]);
    assert(s.len() == j + 1);
    assert(s.filter(pred) == if pred(s.last()) {
        s.drop_last().filter(pred).push(s.last())
    } else {
        s.drop_last().filter(pred)
    });
}

/// Appends to a declared-named type parameter the declared bounds it does
/// not already carry (structural comparison against the bounds it had
/// before the step); other parameters pass through unchanged.
fn append_model_bounds(model: &ModuleGenerics, p: GenericParam) -> (r: GenericParam)
    requires
        model_wf(abs_model(*model)),
    ensures
        abs_param(r) == add_bounds_param(abs_model(*model), abs_param(p)),
{
    let ghost m = abs_model(*model);
    match p {
        GenericParam::Ty { name, bounds } => {
            let found = find_name(&model.generics, &name);
            match found {
                Some(idx) => {
                    proof {
                        assert(m.order[idx as int] == name@);
                        assert(m.order.contains(name@));
                        lemma_name_index_unique(m.order, name@, idx as int);
                        lemma_abs_bounds(
                            model.generics_bounds@[idx as int]@,
                            model.generics_bounds@[idx as int]@.len() as int,
                        );
                        lemma_abs_bounds(bounds@, bounds@.len() as int);
                    }
                    let ghost orig = abs_bounds(bounds@, bounds@.len() as int);
                    let ghost decl = bounds_of(m, name@);
                    let ghost pred = |b: BoundS| !orig.contains(b);
                    let mb = &model.generics_bounds[idx];
                    let mut adds: Vec<Bound> = Vec::new();
                    let mut bi: usize = 0;
                    proof {
                        assert(decl.take(0) =~= Seq::<BoundS>::empty());
                        lemma_abs_bounds(adds@, adds@.len() as int);
                        assert(abs_bounds(adds@, adds@.len() as int) =~= decl.take(0).filter(
                            pred,
                        ));
                    }
                    while bi < mb.len()
                        invariant
                            0 <= bi <= mb@.len(),
                            model_wf(m),
                            m == abs_model(*model),
                            idx < model.generics_bounds@.len(),
                            mb@ == model.generics_bounds@[idx as int]@,
                            orig == abs_bounds(bounds@, bounds@.len() as int),
                            decl == bounds_of(m, name@),
                            decl == abs_bounds(mb@, mb@.len() as int),
                            decl.len() == mb@.len(),
                            forall|k: int| 0 <= k < mb@.len() ==> decl[k] == abs_bound(mb@[k]),
                            pred == (|b: BoundS| !orig.contains(b)),
                            abs_bounds(adds@, adds@.len() as int) == decl.take(bi as int).filter(
                                pred,
                            ),
                        decreases mb@.len() - bi,
                    {
                        let ghost prev_adds = adds@;
                        let is_there = vec_contains_bound(&bounds, &mb[bi]);
                        if !is_there {
                            adds.push(clone_bound(&mb[bi]));
                        }
                        proof {
                            lemma_filter_take_step(decl, pred, bi as int);
                            lemma_abs_bounds(prev_adds, prev_adds.len() as int);
                            lemma_abs_bounds(adds@, adds@.len() as int);
                            if !is_there {
                                assert(abs_bounds(adds@, adds@.len() as int) =~= abs_bounds(
                                    prev_adds,
                                    prev_adds.len() as int,
                                ).push(decl[bi as int]));
                            }
                        }
                        bi += 1;
                    }
                    proof {
                        assert(decl.take(mb@.len() as int) =~= decl);
                        assert(abs_bounds(adds@, adds@.len() as int) == missing_bounds(
                            decl,
                            orig,
                        ));
                    }
                    let mut bounds = bounds;
                    let ghost adds_abs = abs_bounds(adds@, adds@.len() as int);
                    proof {
                        lemma_abs_bounds(adds@, adds@.len() as int);
                        lemma_abs_bounds(bounds@, bounds@.len() as int);
                        assert(abs_bounds(bounds@, bounds@.len() as int) =~= orig + adds_abs.take(
                            0,
                        ));
                    }
                    let mut k: usize = 0;
                    while k < adds.len()
                        invariant
                            0 <= k <= adds@.len(),
                            adds_abs == abs_bounds(adds@, adds@.len() as int),
                            adds_abs.len() == adds@.len(),
                            forall|j: int| 0 <= j < adds@.len() ==> adds_abs[j] == abs_bound(
                                adds@[j],
                            ),
                            orig.len() + k == bounds@.len(),
                            abs_bounds(bounds@, bounds@.len() as int) == orig + adds_abs.take(
                                k as int,
                            ),
                        decreases adds@.len() - k,
                    {
                        let ghost prev = bounds@;
                        bounds.push(clone_bound(&adds[k]));
                        proof {
                            lemma_abs_bounds(prev, prev.len() as int);
                            lemma_abs_bounds(bounds@, bounds@.len() as int);
                            assert(abs_bounds(bounds@, bounds@.len() as int) =~= abs_bounds(
                                prev,
                                prev.len() as int,
                            ).push(adds_abs[k as int]));
                            assert(orig + adds_abs.take(k as int + 1) =~= (orig + adds_abs.take(
                                k as int,
                            )).push(adds_abs[k as int]));
                        }
                        k += 1;
                    }
                    proof {
                        assert(adds_abs.take(adds@.len() as int) =~= adds_abs);
                    }
                    GenericParam::Ty { name, bounds }
                },
                None => {
                    proof {
                        if m.order.contains(name@) {
                            lemma_nset_pick(model.generics@, name@);
                        }
                    }
                    GenericParam::Ty { name, bounds }
                },
            }
        },
        GenericParam::Lifetime(n) => GenericParam::Lifetime(n),
        GenericParam::Const { name, ty } => GenericParam::Const { name, ty },
    }
}

/// Whether a type parameter of that name is already present.
fn has_param(params: &Vec<GenericParam>, name: &String) -> (r: bool)
    ensures
        r == has_tparam(abs_params(params@, params@.len() as int), name@),
{
    proof {
        lemma_abs_params(params@, params@.len() as int);
    }
    let ghost aps = abs_params(params@, params@.len() as int);
    let mut i: usize = 0;
    while i < params.len()
        invariant
            0 <= i <= params@.len(),
            aps == abs_params(params@, params@.len() as int),
            aps.len() == params@.len(),
            forall|k: int| 0 <= k < params@.len() ==> aps[k] == abs_param(params@[k]),
            forall|k: int| 0 <= k < i ==> !is_tparam_named(aps[k], name@),
        decreases params@.len() - i,
    {
        let hit = match &params[i] {
            GenericParam::Ty { name: pname, bounds: _ } => *pname == *name,
            GenericParam::Lifetime(_) => false,
            GenericParam::Const { name: _, ty: _ } => false,
        };
        if hit {
            proof {
                assert(is_tparam_named(aps[i as int], name@));
            }
            return true;
        }
        i += 1;
    }
    proof {
        if has_tparam(aps, name@) {
            let k = choose|k: int| 0 <= k < aps.len() && is_tparam_named(aps[k], name@);
        }
    }
    false
}

// ---------------------------------------------------------------------------
// The rewriter
// ---------------------------------------------------------------------------

/// One rewriting scope: the set of generic names this scope must never
/// inject, because an enclosing item already declares them.
pub struct ItemExtendingVisit {
    pub skip_mod_generics: Vec<String>,
}

impl ItemExtendingVisit {
    /// The scope's skip set.
    pub open spec fn skip_set(&self) -> Set<Seq<char>> {
        nset(self.skip_mod_generics@)
    }

    /// The root scope: nothing is skipped.
    pub fn new() -> (r: ItemExtendingVisit)
        ensures
            r.skip_set() == Set::<Seq<char>>::empty(),
    {
        let r = ItemExtendingVisit { skip_mod_generics: Vec::new() };
        proof {
            assert forall|x: Seq<char>| !r.skip_set().contains(x) by {
                if r.skip_set().contains(x) {
                    lemma_nset_pick(r.skip_mod_generics@, x);
                }
            }
            assert(r.skip_set() =~= Set::<Seq<char>>::empty());
        }
        r
    }

    /// A nested scope that skips the given names.
    pub fn new_with_skip(skip_dependencies: Vec<String>) -> (r: ItemExtendingVisit)
        ensures
            r.skip_mod_generics@ == skip_dependencies@,
    {
        ItemExtendingVisit { skip_mod_generics: skip_dependencies }
    }

    /// Appends a bare type parameter of that name, unless this scope skips
    /// the name or the site already has one.
    fn generics_insert(&self, generics: &mut Generics, mod_generic: &String)
        ensures
            abs_params(final(generics).params@, final(generics).params@.len() as int)
                == insert_param(
                self.skip_set(),
                abs_params(old(generics).params@, old(generics).params@.len() as int),
                mod_generic@,
            ),
            final(generics).where_preds == old(generics).where_preds,
    {
        proof {
            lemma_abs_params(generics.params@, generics.params@.len() as int);
        }
        let ghost before = abs_params(generics.params@, generics.params@.len() as int);
        if str_in(&self.skip_mod_generics, mod_generic) {
            return;
        }
        if has_param(&generics.params, mod_generic) {
            return;
        }
        generics.params.push(GenericParam::Ty { name: mod_generic.clone(), bounds: Vec::new() });
        proof {
            lemma_abs_params(generics.params@, generics.params@.len() as int);
            assert(abs_params(generics.params@, generics.params@.len() as int) =~= before.push(
                ParamS::Ty { name: mod_generic@, bounds: Seq::empty() },
            ));
        }
    }

    /// Copies into `dst` the members of `src` that this scope does not
    /// skip and that `dst` does not already hold — `dst` may end up with
    /// duplicates only if it already had them.
    fn push_unskipped(&self, dst: &mut Vec<String>, src: &Vec<String>)
        ensures
            nset(final(dst)@) == nset(old(dst)@).union(
                nset(src@).difference(self.skip_set()),
            ),
    {
        let ghost dst0 = old(dst)@;
        let ghost skip = self.skip_set();
        let mut i: usize = 0;
        while i < src.len()
            invariant
                0 <= i <= src@.len(),
                skip == self.skip_set(),
                forall|x: Seq<char>|
                    #[trigger] nset(dst@).contains(x) ==> nset(dst0).contains(x) || (nset(
                        src@,
                    ).contains(x) && !skip.contains(x)),
                forall|k: int|
                    0 <= k < i ==> (skip.contains(#[trigger] src@[k]@) || nset(dst@).contains(
                        src@[k]@,
                    )),
                forall|x: Seq<char>|
                    #[trigger] nset(dst0).contains(x) ==> nset(dst@).contains(x),
            decreases src@.len() - i,
        {
            if !str_in(&self.skip_mod_generics, &src[i]) {
                let already = str_in(dst, &src[i]);
                if !already {
                    let ghost prev = dst@;
                    dst.push(src[i].clone());
                    proof {
                        crate::utils::lemma_names_push(prev, src@[i as int]);
                        lemma_nset_elem(src@, i as int);
                    }
                } else {
                    proof {
                        lemma_nset_elem(src@, i as int);
                    }
                }
            }
            i += 1;
        }
        proof {
            assert forall|x: Seq<char>|
                nset(dst0).union(nset(src@).difference(skip)).contains(x) implies nset(
                dst@,
            ).contains(x) by {
                if nset(src@).contains(x) && !skip.contains(x) {
                    lemma_nset_pick(src@, x);
                    let k = choose|k: int| 0 <= k < src@.len() && src@[k]@ == x;
                    assert(skip.contains(src@[k]@) || nset(dst@).contains(src@[k]@));
                }
            }
            assert(nset(dst@) =~= nset(dst0).union(nset(src@).difference(skip)));
        }
    }

    /// The generic-list step at one site: find the module generics the
    /// site references, close them transitively, inject the missing ones
    /// in declaration order, attach missing declared bounds to every
    /// declared-named parameter, and append the applicable predicates not
    /// already present.
    pub fn expand_generics(&self, model: &ModuleGenerics, generics: &mut Generics)
        requires
            model_wf(abs_model(*model)),
        ensures
            abs_generics(*final(generics)) == expand_spec(
                abs_model(*model),
                self.skip_set(),
                abs_generics(*old(generics)),
            ),
    {
        let ghost m = abs_model(*model);
        let ghost skip = self.skip_set();
        let ghost g0 = abs_generics(*generics);
        let ghost used_s = site_used(m, skip, g0);
        let ghost cl = site_closure(m, skip, g0);
        proof {
            lemma_abs_preds(generics.where_preds@, generics.where_preds@.len() as int);
        }

        // The module generics this site references, outside the skip set.
        let used_all = get_generics_mod_generics(&model.generics, generics);
        let mut used: Vec<String> = Vec::new();
        proof {
            assert forall|x: Seq<char>| !nset(used@).contains(x) by {
                if nset(used@).contains(x) {
                    lemma_nset_pick(used@, x);
                }
            }
        }
        self.push_unskipped(&mut used, &used_all);
        proof {
            assert(nset(used@) =~= used_s);
        }

        // Their transitive dependencies, and the closed set.
        let deps = model.get_dependencies(&used);
        let mut cl_vec = used;
        self.push_unskipped(&mut cl_vec, &deps);
        proof {
            lemma_closure_includes(m, used_s);
            assert(nset(cl_vec@) =~= cl);
        }

        // Inject the missing members of the closed set, in declaration
        // order.
        let ghost ps0 = g0.params;
        let ghost wp0 = generics.where_preds@;
        let mut j: usize = 0;
        while j < model.generics.len()
            invariant
                0 <= j <= model.generics@.len(),
                m == abs_model(*model),
                skip == self.skip_set(),
                nset(cl_vec@) == cl,
                m.order.len() == model.generics@.len(),
                abs_params(generics.params@, generics.params@.len() as int) == inject_upto(
                    m.order,
                    cl,
                    skip,
                    ps0,
                    j as int,
                ),
                generics.where_preds@ == wp0,
            decreases model.generics@.len() - j,
        {
            let is_in = str_in(&cl_vec, &model.generics[j]);
            proof {
                assert(m.order[j as int] == model.generics@[j as int]@);
            }
            if is_in {
                self.generics_insert(generics, &model.generics[j]);
            }
            j += 1;
        }

        // Attach the declared bounds each declared-named parameter still
        // misses.
        let ghost ps1 = abs_params(generics.params@, generics.params@.len() as int);
        proof {
            lemma_abs_params(generics.params@, generics.params@.len() as int);
        }
        let mut new_params: Vec<GenericParam> = Vec::new();
        proof {
            lemma_abs_params(new_params@, new_params@.len() as int);
        }
        while generics.params.len() > 0
            invariant
                m == abs_model(*model),
                model_wf(m),
                ps1.len() == new_params@.len() + generics.params@.len(),
                forall|k: int|
                    0 <= k < new_params@.len() ==> abs_param(#[trigger] new_params@[k])
                        == add_bounds_param(m, ps1[k]),
                forall|k: int|
                    0 <= k < generics.params@.len() ==> abs_param(
                        #[trigger] generics.params@[k],
                    ) == ps1[new_params@.len() + k],
                generics.where_preds@ == wp0,
            decreases generics.params@.len(),
        {
            let p = generics.params.remove(0);
            let q = append_model_bounds(model, p);
            new_params.push(q);
        }
        generics.params = new_params;
        proof {
            lemma_abs_params(generics.params@, generics.params@.len() as int);
            assert(abs_params(generics.params@, generics.params@.len() as int) =~= add_bounds(
                m,
                ps1,
            ));
        }

        // Append the applicable predicates that are not already present.
        let ghost pvec = generics.params@;
        let orig_len = generics.where_preds.len();
        proof {
            lemma_abs_preds(model.predicates@, model.predicates@.len() as int);
            lemma_abs_preds(wp0, wp0.len() as int);
            assert(g0.preds.len() == wp0.len());
            assert(abs_preds(generics.where_preds@, generics.where_preds@.len() as int) =~= g0.preds
                + sel_preds_upto(m, cl, g0.preds, 0));
        }
        let mut pi: usize = 0;
        while pi < model.predicates.len()
            invariant
                0 <= pi <= model.predicates@.len(),
                m == abs_model(*model),
                model_wf(m),
                skip == self.skip_set(),
                nset(cl_vec@) == cl,
                m.preds.len() == model.predicates@.len(),
                m.pred_namess.len() == model.predicates@.len(),
                model.predicates_generics@.len() == model.predicates@.len(),
                forall|k: int|
                    0 <= k < model.predicates@.len() ==> abs_pred(#[trigger] model.predicates@[k])
                        == m.preds[k],
                generics.params@ == pvec,
                orig_len == g0.preds.len(),
                orig_len <= generics.where_preds@.len(),
                forall|k: int|
                    0 <= k < orig_len ==> abs_pred(#[trigger] generics.where_preds@[k])
                        == g0.preds[k],
                abs_preds(generics.where_preds@, generics.where_preds@.len() as int) == g0.preds
                    + sel_preds_upto(m, cl, g0.preds, pi as int),
            decreases model.predicates@.len() - pi,
        {
            let gate = names_subset(&model.predicates_generics[pi], &cl_vec);
            let already = preds_contain(&generics.where_preds, orig_len, &model.predicates[pi]);
            let ghost target = m.preds[pi as int];
            proof {
                assert(m.pred_namess[pi as int] == nset(
                    model.predicates_generics@[pi as int]@,
                ));
                if already {
                    let k = choose|k: int|
                        0 <= k < orig_len && abs_pred(#[trigger] generics.where_preds@[k])
                            == target;
                    assert(g0.preds[k] == target);
                    assert(g0.preds.contains(target));
                } else {
                    if g0.preds.contains(target) {
                        let k = choose|k: int| 0 <= k < g0.preds.len() && g0.preds[k] == target;
                        assert(abs_pred(generics.where_preds@[k]) == target);
                    }
                }
            }
            let ghost prev_wp = generics.where_preds@;
            if gate && !already {
                generics.where_preds.push(clone_predicate(&model.predicates[pi]));
                proof {
                    lemma_abs_preds(prev_wp, prev_wp.len() as int);
                    lemma_abs_preds(generics.where_preds@, generics.where_preds@.len() as int);
                    assert(abs_preds(generics.where_preds@, generics.where_preds@.len() as int)
                        =~= abs_preds(prev_wp, prev_wp.len() as int).push(target));
                    assert(g0.preds + sel_preds_upto(m, cl, g0.preds, pi as int + 1) =~= (g0.preds
                        + sel_preds_upto(m, cl, g0.preds, pi as int)).push(target));
                }
            } else {
                proof {
                    assert(g0.preds + sel_preds_upto(m, cl, g0.preds, pi as int + 1) =~= g0.preds
                        + sel_preds_upto(m, cl, g0.preds, pi as int));
                }
            }
            pi += 1;
        }
        proof {
            assert(abs_generics(*generics) =~= expand_spec(m, skip, g0));
        }
    }
}

// ---------------------------------------------------------------------------
// The tree walk
// ---------------------------------------------------------------------------

/// The module generics referenced in a signature's parameter and return
/// types.
pub open spec fn sig_primed(m: ModelS, s: SigS) -> Set<Seq<char>> {
    tys_refs(s.inputs, s.inputs.len() as int).union(
        match s.output {
            Some(t) => ty_refs(t),
            None => Set::empty(),
        },
    ).intersect(m.order.to_set())
}

/// Rewriting a function signature: the module generics its types mention
/// are injected first, then the generic-list step runs.
pub open spec fn sig_rw(m: ModelS, skip: Set<Seq<char>>, s: SigS) -> SigS {
    let primed = inject_upto(
        m.order,
        sig_primed(m, s),
        skip,
        s.generics.params,
        m.order.len() as int,
    );
    SigS {
        generics: expand_spec(m, skip, GenericsS { params: primed, preds: s.generics.preds }),
        inputs: s.inputs,
        output: s.output,
    }
}

/// The module generics referenced by an impl header: the final path
/// segment of the implemented trait, if any, and the self type.
pub open spec fn impl_primed(
    m: ModelS,
    trait_path: Option<Seq<SegS>>,
    self_ty: TyS,
) -> Set<Seq<char>> {
    let from_trait: Set<Seq<char>> = match trait_path {
        Some(segs) => if segs.len() > 0 {
            args_refs(segs[segs.len() - 1].args, segs[segs.len() - 1].args.len() as int)
        } else {
            Set::empty()
        },
        None => Set::empty(),
    };
    from_trait.union(ty_refs(self_ty)).intersect(m.order.to_set())
}

/// The skip set a trait or impl hands to its nested items: its own final
/// type-parameter names that are module generics.
pub open spec fn narrowed_skip(m: ModelS, ps: Seq<ParamS>) -> Set<Seq<char>> {
    tparam_names(ps).intersect(m.order.to_set())
}

/// Rewriting one item.
pub open spec fn item_rw(m: ModelS, skip: Set<Seq<char>>, item: ItemS) -> ItemS
    decreases item, 1int,
{
    match item {
        ItemS::Function { sig } => ItemS::Function { sig: sig_rw(m, skip, sig) },
        ItemS::Trait { generics, items } => {
            let g2 = expand_spec(m, skip, generics);
            let sk2 = narrowed_skip(m, g2.params);
            ItemS::Trait { generics: g2, items: items_rw(m, sk2, items, items.len() as int) }
        },
        ItemS::Impl { generics, trait_path, self_ty, items } => {
            let g1 = GenericsS {
                params: inject_upto(
                    m.order,
                    impl_primed(m, trait_path, self_ty),
                    skip,
                    generics.params,
                    m.order.len() as int,
                ),
                preds: generics.preds,
            };
            let g2 = expand_spec(m, skip, g1);
            let sk2 = narrowed_skip(m, g2.params);
            ItemS::Impl {
                generics: g2,
                trait_path,
                self_ty,
                items: items_rw(m, sk2, items, items.len() as int),
            }
        },
        ItemS::Other => ItemS::Other,
    }
}

/// Rewriting the first `j` items of a list, each with the same scope.
pub open spec fn items_rw(m: ModelS, skip: Set<Seq<char>>, items: Seq<ItemS>, j: int) -> Seq<
    ItemS,
>
    decreases items, j,
{
    if j <= 0 || j > items.len() {
        Seq::empty()
    } else {
        items_rw(m, skip, items, j - 1).push(item_rw(m, skip, items[j - 1]))
    }
}

pub proof fn lemma_items_rw(m: ModelS, skip: Set<Seq<char>>, items: Seq<ItemS>, j: int)
    requires
        0 <= j <= items.len(),
    ensures
        items_rw(m, skip, items, j).len() == j,
        forall|k: int| 0 <= k < j ==> items_rw(m, skip, items, j)[k] == item_rw(
            m,
            skip,
            items[k],
        ),
    decreases j,
{
    if j > 0 {
        lemma_items_rw(m, skip, items, j - 1);
    }
}

impl ItemExtendingVisit {
    /// Rewrites a function signature: any module generic referenced in the
    /// parameter or return types is injected as a bare parameter first,
    /// then the generic-list step closes, bounds and gates as at any site.
    pub fn visit_signature_mut(&self, model: &ModuleGenerics, sig: &mut Signature)
        requires
            model_wf(abs_model(*model)),
        ensures
            abs_sig(*final(sig)) == sig_rw(
                abs_model(*model),
                self.skip_set(),
                abs_sig(*old(sig)),
            ),
    {
        let ghost m = abs_model(*model);
        let ghost skip = self.skip_set();
        let ghost s0 = abs_sig(*sig);
        let ghost primed = sig_primed(m, s0);
        let ghost ps0 = s0.generics.params;
        let ghost inputs0 = sig.inputs@;
        let ghost out0 = sig.output;
        let ghost wp0 = sig.generics.where_preds@;
        proof {
            lemma_abs_tys(sig.inputs@, sig.inputs@.len() as int);
        }
        let mut j: usize = 0;
        while j < model.generics.len()
            invariant
                0 <= j <= model.generics@.len(),
                m == abs_model(*model),
                skip == self.skip_set(),
                model_wf(m),
                m.order.len() == model.generics@.len(),
                s0 == abs_sig(*old(sig)),
                primed == sig_primed(m, s0),
                ps0 == s0.generics.params,
                sig.inputs@ == inputs0,
                sig.output == out0,
                inputs0 == old(sig).inputs@,
                out0 == old(sig).output,
                sig.generics.where_preds@ == wp0,
                wp0 == old(sig).generics.where_preds@,
                abs_params(sig.generics.params@, sig.generics.params@.len() as int)
                    == inject_upto(m.order, primed, skip, ps0, j as int),
            decreases model.generics@.len() - j,
        {
            let name = &model.generics[j];
            proof {
                assert(m.order[j as int] == model.generics@[j as int]@);
                assert(m.order.contains(m.order[j as int]));
                lemma_abs_tys(sig.inputs@, sig.inputs@.len() as int);
            }
            let mut fin = false;
            let mut ti: usize = 0;
            let ghost ai = abs_tys(sig.inputs@, sig.inputs@.len() as int);
            while ti < sig.inputs.len()
                invariant
                    0 <= ti <= sig.inputs@.len(),
                    ai == abs_tys(sig.inputs@, sig.inputs@.len() as int),
                    ai.len() == sig.inputs@.len(),
                    forall|k: int| 0 <= k < sig.inputs@.len() ==> ai[k] == abs_ty(
                        sig.inputs@[k],
                    ),
                    fin == tys_refs(ai, ti as int).contains(name@),
                decreases sig.inputs@.len() - ti,
            {
                if ty_mentions(&sig.inputs[ti], name) {
                    fin = true;
                }
                ti += 1;
            }
            let fout = match &sig.output {
                Some(t) => ty_mentions(t, name),
                None => false,
            };
            let found = fin || fout;
            proof {
                assert(s0.inputs == ai);
                assert(found == primed.contains(m.order[j as int]));
            }
            if found {
                self.generics_insert(&mut sig.generics, name);
            }
            j += 1;
        }
        self.expand_generics(model, &mut sig.generics);
        proof {
            assert(abs_sig(*sig) =~= sig_rw(m, skip, s0));
        }
    }

    /// The names that a trait's or impl's own (post-rewrite) generics
    /// already bind, among the module generics.
    fn inner_skip_mod_generics(&self, model: &ModuleGenerics, generics: &Generics) -> (r: Vec<
        String,
    >)
        ensures
            nset(r@) == narrowed_skip(
                abs_model(*model),
                abs_params(generics.params@, generics.params@.len() as int),
            ),
    {
        let ghost m = abs_model(*model);
        let ghost aps = abs_params(generics.params@, generics.params@.len() as int);
        proof {
            lemma_abs_params(generics.params@, generics.params@.len() as int);
        }
        let mut r: Vec<String> = Vec::new();
        proof {
            assert forall|x: Seq<char>| !nset(r@).contains(x) by {
                if nset(r@).contains(x) {
                    lemma_nset_pick(r@, x);
                }
            }
        }
        let mut i: usize = 0;
        while i < generics.params.len()
            invariant
                0 <= i <= generics.params@.len(),
                m == abs_model(*model),
                aps == abs_params(generics.params@, generics.params@.len() as int),
                aps.len() == generics.params@.len(),
                forall|k: int| 0 <= k < generics.params@.len() ==> aps[k] == abs_param(
                    generics.params@[k],
                ),
                forall|x: Seq<char>|
                    #[trigger] nset(r@).contains(x) ==> has_tparam(aps, x)
                        && m.order.to_set().contains(x),
                forall|k: int|
                    0 <= k < i ==> (is_tparam_named(#[trigger] aps[k], crate::input::param_name(
                        aps[k],
                    )) && m.order.to_set().contains(crate::input::param_name(aps[k]))
                        ==> nset(r@).contains(crate::input::param_name(aps[k]))),
            decreases generics.params@.len() - i,
        {
            match &generics.params[i] {
                GenericParam::Ty { name, bounds: _ } => {
                    if str_in(&model.generics, name) {
                        let ghost prev = r@;
                        r.push(name.clone());
                        proof {
                            crate::utils::lemma_names_push(prev, *name);
                            assert(is_tparam_named(aps[i as int], name@));
                        }
                    }
                },
                GenericParam::Lifetime(_) => {},
                GenericParam::Const { name: _, ty: _ } => {},
            }
            i += 1;
        }
        proof {
            assert forall|x: Seq<char>|
                narrowed_skip(m, aps).contains(x) implies nset(r@).contains(x) by {
                let k = choose|k: int| 0 <= k < aps.len() && is_tparam_named(aps[k], x);
                assert(crate::input::param_name(aps[k]) == x);
            }
            assert(nset(r@) =~= narrowed_skip(m, aps));
        }
        r
    }

    /// The scope for the items nested inside a trait or impl with these
    /// (post-rewrite) generics.
    fn inner(&self, model: &ModuleGenerics, generics: &Generics) -> (r: ItemExtendingVisit)
        ensures
            r.skip_set() == narrowed_skip(
                abs_model(*model),
                abs_params(generics.params@, generics.params@.len() as int),
            ),
    {
        let skip = self.inner_skip_mod_generics(model, generics);
        ItemExtendingVisit::new_with_skip(skip)
    }

    /// Rewrites one item: a function through its signature; a trait or
    /// impl through its own generics, then its nested items under the
    /// narrowed scope; anything else passes through untouched.
    pub fn visit_item_mut(&self, model: &ModuleGenerics, item: &Item) -> (r: Item)
        requires
            model_wf(abs_model(*model)),
        ensures
            abs_item(r) == item_rw(abs_model(*model), self.skip_set(), abs_item(*item)),
        decreases *item, 1int,
    {
        let ghost m = abs_model(*model);
        let ghost skip = self.skip_set();
        match item {
            Item::Function { sig } => {
                let mut sig2 = clone_signature(sig);
                self.visit_signature_mut(model, &mut sig2);
                Item::Function { sig: sig2 }
            },
            Item::Trait { generics, items } => {
                let mut g2 = clone_generics(generics);
                self.expand_generics(model, &mut g2);
                let visitor = self.inner(model, &g2);
                let items2 = visitor.visit_items(model, items);
                let r = Item::Trait { generics: g2, items: items2 };
                proof {
                    lemma_abs_items(items@, items@.len() as int);
                    assert(abs_item(r) =~= item_rw(m, skip, abs_item(*item)));
                }
                r
            },
            Item::Impl { generics, trait_path, self_ty, items } => {
                let ghost tp0: Option<Seq<SegS>> = match trait_path {
                    Some(p) => Some(abs_segs(p@, p@.len() as int)),
                    None => None,
                };
                let ghost st0 = abs_ty(*self_ty);
                let ghost primed = impl_primed(m, tp0, st0);
                let ghost ps0 = abs_params(generics.params@, generics.params@.len() as int);
                let mut g2 = clone_generics(generics);
                let ghost wp0 = g2.where_preds@;
                let mut j: usize = 0;
                while j < model.generics.len()
                    invariant
                        0 <= j <= model.generics@.len(),
                        m == abs_model(*model),
                        skip == self.skip_set(),
                        model_wf(m),
                        m.order.len() == model.generics@.len(),
                        primed == impl_primed(m, tp0, st0),
                        st0 == abs_ty(*self_ty),
                        tp0 == (match trait_path {
                            Some(p) => Some(abs_segs(p@, p@.len() as int)),
                            None => None,
                        }),
                        g2.where_preds@ == wp0,
                        abs_preds(wp0, wp0.len() as int) == abs_preds(
                            generics.where_preds@,
                            generics.where_preds@.len() as int,
                        ),
                        abs_params(g2.params@, g2.params@.len() as int) == inject_upto(
                            m.order,
                            primed,
                            skip,
                            ps0,
                            j as int,
                        ),
                    decreases model.generics@.len() - j,
                {
                    let name = &model.generics[j];
                    proof {
                        assert(m.order[j as int] == model.generics@[j as int]@);
                        assert(m.order.contains(m.order[j as int]));
                    }
                    let ftrait = match trait_path {
                        Some(p) => {
                            if p.len() > 0 {
                                proof {
                                    lemma_abs_segs(p@, p@.len() as int);
                                    crate::ast::lemma_abs_args(
                                        p@[p@.len() - 1].args@,
                                        p@[p@.len() - 1].args@.len() as int,
                                    );
                                }
                                let fb = crate::utils::args_mentions(&p[p.len() - 1].args, name);
                                proof {
                                    let segs = abs_segs(p@, p@.len() as int);
                                    assert(segs.len() == p@.len());
                                    assert(segs[p@.len() - 1] == abs_seg(p@[p@.len() - 1]));
                                    assert(fb == args_refs(
                                        segs[segs.len() - 1].args,
                                        segs[segs.len() - 1].args.len() as int,
                                    ).contains(name@));
                                }
                                fb
                            } else {
                                false
                            }
                        },
                        None => false,
                    };
                    let fself = ty_mentions(self_ty, name);
                    let found = ftrait || fself;
                    proof {
                        assert(fself == ty_refs(st0).contains(name@));
                        assert(m.order.to_set().contains(m.order[j as int]));
                        assert(found == primed.contains(m.order[j as int]));
                    }
                    if found {
                        self.generics_insert(&mut g2, name);
                    }
                    j += 1;
                }
                self.expand_generics(model, &mut g2);
                let visitor = self.inner(model, &g2);
                let items2 = visitor.visit_items(model, items);
                let new_tp = match trait_path {
                    Some(p) => Some(crate::ast::clone_segs(p)),
                    None => None,
                };
                let r = Item::Impl {
                    generics: g2,
                    trait_path: new_tp,
                    self_ty: crate::ast::clone_ty(self_ty),
                    items: items2,
                };
                proof {
                    lemma_abs_items(items@, items@.len() as int);
                    assert(abs_item(r) =~= item_rw(m, skip, abs_item(*item)));
                }
                r
            },
            Item::Other => Item::Other,
        }
    }

    /// Rewrites every item of a list, each under this same scope.
    pub fn visit_items(&self, model: &ModuleGenerics, items: &Vec<Item>) -> (r: Vec<Item>)
        requires
            model_wf(abs_model(*model)),
        ensures
            abs_items(r@, r@.len() as int) == items_rw(
                abs_model(*model),
                self.skip_set(),
                abs_items(items@, items@.len() as int),
                items@.len() as int,
            ),
        decreases *items, 0int,
    {
        let ghost m = abs_model(*model);
        let ghost skip = self.skip_set();
        let ghost al = abs_items(items@, items@.len() as int);
        proof {
            lemma_abs_items(items@, items@.len() as int);
            lemma_items_rw(m, skip, al, al.len() as int);
        }
        let mut r: Vec<Item> = Vec::new();
        let mut i: usize = 0;
        while i < items.len()
            invariant
                0 <= i <= items@.len(),
                m == abs_model(*model),
                skip == self.skip_set(),
                model_wf(m),
                al == abs_items(items@, items@.len() as int),
                al.len() == items@.len(),
                forall|k: int| 0 <= k < items@.len() ==> al[k] == abs_item(items@[k]),
                r@.len() == i,
                forall|k: int| 0 <= k < i ==> abs_item(#[trigger] r@[k]) == item_rw(
                    m,
                    skip,
                    al[k],
                ),
            decreases items@.len() - i,
        {
            let it = self.visit_item_mut(model, &items[i]);
            r.push(it);
            i += 1;
        }
        proof {
            lemma_abs_items(r@, r@.len() as int);
            lemma_items_rw(m, skip, al, al.len() as int);
            assert(abs_items(r@, r@.len() as int) =~= items_rw(m, skip, al, al.len() as int));
        }
        r
    }
}

// ---------------------------------------------------------------------------
// Laws of the rewriting step
// ---------------------------------------------------------------------------

/// Bound de-duplication: a bound the parameter already carries is never
/// among the appended ones — every appended bound was textually absent.
pub proof fn lemma_bound_dedup(declared: Seq<BoundS>, have: Seq<BoundS>)
    ensures
        forall|b: BoundS| #[trigger] missing_bounds(declared, have).contains(b) ==> !have.contains(
            b,
        ),
        forall|b: BoundS| have.contains(b) ==> !missing_bounds(declared, have).contains(b),
{
    let pred = |b: BoundS| !have.contains(b);
    assert forall|b: BoundS| #[trigger] missing_bounds(declared, have).contains(
        b,
    ) implies !have.contains(b) by {
        let i = choose|i: int|
            0 <= i < missing_bounds(declared, have).len() && missing_bounds(declared, have)[i]
                == b;
        declared.lemma_filter_pred(pred, i);
    }
}

/// No type parameter name is declared twice at a site.
pub open spec fn tparams_distinct(ps: Seq<ParamS>) -> bool {
    forall|k1: int, k2: int|
        0 <= k1 < k2 < ps.len() && is_tparam_named(#[trigger] ps[k1], crate::input::param_name(
            ps[k1],
        )) && is_tparam_named(#[trigger] ps[k2], crate::input::param_name(ps[k2]))
            ==> crate::input::param_name(ps[k1]) != crate::input::param_name(ps[k2])
}

proof fn lemma_insert_param_distinct(skip: Set<Seq<char>>, ps: Seq<ParamS>, name: Seq<char>)
    requires
        tparams_distinct(ps),
    ensures
        tparams_distinct(insert_param(skip, ps, name)),
{
    let out = insert_param(skip, ps, name);
    if !skip.contains(name) && !has_tparam(ps, name) {
        assert forall|k1: int, k2: int|
            0 <= k1 < k2 < out.len() && is_tparam_named(
                #[trigger] out[k1],
                crate::input::param_name(out[k1]),
            ) && is_tparam_named(#[trigger] out[k2], crate::input::param_name(out[k2]))
            implies crate::input::param_name(out[k1]) != crate::input::param_name(out[k2]) by {
            if k2 == ps.len() {
                if crate::input::param_name(out[k1]) == name {
                    assert(is_tparam_named(ps[k1], name));
                    assert(has_tparam(ps, name));
                }
            }
        }
    }
}

proof fn lemma_inject_distinct(
    order: Seq<Seq<char>>,
    cl: Set<Seq<char>>,
    skip: Set<Seq<char>>,
    ps: Seq<ParamS>,
    j: int,
)
    requires
        tparams_distinct(ps),
    ensures
        tparams_distinct(inject_upto(order, cl, skip, ps, j)),
    decreases j,
{
    if j > 0 {
        lemma_inject_distinct(order, cl, skip, ps, j - 1);
        if cl.contains(order[j - 1]) {
            lemma_insert_param_distinct(skip, inject_upto(order, cl, skip, ps, j - 1), order[j
                - 1]);
        }
    }
}

proof fn lemma_add_bounds_names(m: ModelS, ps: Seq<ParamS>)
    ensures
        add_bounds(m, ps).len() == ps.len(),
        forall|k: int|
            0 <= k < ps.len() ==> crate::input::param_name(#[trigger] add_bounds(m, ps)[k])
                == crate::input::param_name(ps[k]) && crate::input::param_is_type(
                add_bounds(m, ps)[k],
            ) == crate::input::param_is_type(ps[k]),
{
}

/// No duplicate injection: if a site starts with no two type parameters of
/// one name, the rewritten site has no two either — a module generic
/// already literally present is never injected a second time.
pub proof fn lemma_no_duplicate_injection(m: ModelS, skip: Set<Seq<char>>, g: GenericsS)
    requires
        tparams_distinct(g.params),
    ensures
        tparams_distinct(expand_spec(m, skip, g).params),
{
    let cl = site_closure(m, skip, g);
    let injected = inject_upto(m.order, cl, skip, g.params, m.order.len() as int);
    lemma_inject_distinct(m.order, cl, skip, g.params, m.order.len() as int);
    lemma_add_bounds_names(m, injected);
    let out = expand_spec(m, skip, g).params;
    assert forall|k1: int, k2: int|
        0 <= k1 < k2 < out.len() && is_tparam_named(
            #[trigger] out[k1],
            crate::input::param_name(out[k1]),
        ) && is_tparam_named(#[trigger] out[k2], crate::input::param_name(out[k2]))
        implies crate::input::param_name(out[k1]) != crate::input::param_name(out[k2]) by {
        assert(is_tparam_named(injected[k1], crate::input::param_name(injected[k1])));
        assert(is_tparam_named(injected[k2], crate::input::param_name(injected[k2])));
    }
}

proof fn lemma_sel_preds_membership(
    m: ModelS,
    cl: Set<Seq<char>>,
    orig: Seq<PredS>,
    j: int,
    p: PredS,
)
    requires
        0 <= j <= m.preds.len(),
    ensures
        sel_preds_upto(m, cl, orig, j).contains(p) <==> (exists|i: int|
            0 <= i < j && m.preds[i] == p && (#[trigger] m.pred_namess[i]).subset_of(cl)
                && !orig.contains(p)),
    decreases j,
{
    if j > 0 {
        lemma_sel_preds_membership(m, cl, orig, j - 1, p);
        let tail: Seq<PredS> = if m.pred_namess[j - 1].subset_of(cl) && !orig.contains(
            m.preds[j - 1],
        ) {
            seq![m.preds[j - 1]]
        } else {
            Seq::empty()
        };
        lemma_seq_add_contains_any(sel_preds_upto(m, cl, orig, j - 1), tail, p);
        if tail.contains(p) {
            assert(tail[0] == p);
        }
        if sel_preds_upto(m, cl, orig, j).contains(p) {
        } else {
            if exists|i: int|
                0 <= i < j && m.preds[i] == p && (#[trigger] m.pred_namess[i]).subset_of(cl)
                    && !orig.contains(p) {
                let i = choose|i: int|
                    0 <= i < j && m.preds[i] == p && (#[trigger] m.pred_namess[i]).subset_of(cl)
                        && !orig.contains(p);
                if i == j - 1 {
                    assert(tail.contains(p)) by {
                        assert(tail[0] == p);
                    }
                }
            }
        }
    }
}

proof fn lemma_seq_add_contains_any<A>(a: Seq<A>, b: Seq<A>, p: A)
    ensures
        (a + b).contains(p) <==> a.contains(p) || b.contains(p),
{
    if (a + b).contains(p) {
        let i = choose|i: int| 0 <= i < (a + b).len() && (a + b)[i] == p;
        if i < a.len() {
            assert(a[i] == p);
        } else {
            assert(b[i - a.len()] == p);
        }
    }
    if a.contains(p) {
        let i = choose|i: int| 0 <= i < a.len() && a[i] == p;
        assert((a + b)[i] == p);
    }
    if b.contains(p) {
        let i = choose|i: int| 0 <= i < b.len() && b[i] == p;
        assert((a + b)[a.len() + i] == p);
    }
}

proof fn lemma_filter_none<A>(l: Seq<A>, pred: spec_fn(A) -> bool)
    requires
        forall|i: int| 0 <= i < l.len() ==> !pred(#[trigger] l[i]),
    ensures
        l.filter(pred) == Seq::<A>::empty(),
    decreases l.len(),
{
    reveal(Seq::filter);
    if l.len() > 0 {
        assert forall|i: int| 0 <= i < l.drop_last().len() implies !pred(
            #[trigger] l.drop_last()[i],
        ) by {
            assert(l.drop_last()[i] == l[i]);
        }
        lemma_filter_none(l.drop_last(), pred);
        assert(!pred(l.last()));
    }
}

proof fn lemma_filter_in_source<A>(l: Seq<A>, pred: spec_fn(A) -> bool, x: A)
    requires
        l.filter(pred).contains(x),
    ensures
        l.contains(x),
        pred(x),
    decreases l.len(),
{
    reveal(Seq::filter);
    let sub = l.drop_last().filter(pred);
    if pred(l.last()) {
        let i = choose|i: int|
            0 <= i < l.filter(pred).len() && l.filter(pred)[i] == x;
        if i < sub.len() {
            assert(sub[i] == x);
            assert(sub.contains(x));
            lemma_filter_in_source(l.drop_last(), pred, x);
            let j = choose|j: int| 0 <= j < l.drop_last().len() && l.drop_last()[j] == x;
            assert(l[j] == x);
        } else {
            assert(x == l.last());
            assert(l[l.len() - 1] == x);
        }
    } else {
        lemma_filter_in_source(l.drop_last(), pred, x);
        let j = choose|j: int| 0 <= j < l.drop_last().len() && l.drop_last()[j] == x;
        assert(l[j] == x);
    }
}

proof fn lemma_params_refs_mem(l: Seq<ParamS>, n: int, x: Seq<char>)
    requires
        0 <= n <= l.len(),
    ensures
        params_refs(l, n).contains(x) <==> (exists|k: int|
            0 <= k < n && (#[trigger] param_refs(l[k])).contains(x)),
    decreases n,
{
    if n > 0 {
        lemma_params_refs_mem(l, n - 1, x);
    }
}

proof fn lemma_preds_refs_mem(l: Seq<PredS>, n: int, x: Seq<char>)
    requires
        0 <= n <= l.len(),
    ensures
        preds_refs(l, n).contains(x) <==> (exists|k: int|
            0 <= k < n && (#[trigger] pred_refs(l[k])).contains(x)),
    decreases n,
{
    if n > 0 {
        lemma_preds_refs_mem(l, n - 1, x);
    }
}

proof fn lemma_bounds_refs_mem(l: Seq<BoundS>, n: int, x: Seq<char>)
    requires
        0 <= n <= l.len(),
    ensures
        bounds_refs(l, n).contains(x) <==> (exists|k: int|
            0 <= k < n && (#[trigger] bound_refs(l[k])).contains(x)),
    decreases n,
{
    if n > 0 {
        lemma_bounds_refs_mem(l, n - 1, x);
        if bounds_refs(l, n).contains(x) {
            if bound_refs(l[n - 1]).contains(x) {
                assert(0 <= n - 1 < n && bound_refs(l[n - 1]).contains(x));
            }
        }
        if exists|k: int| 0 <= k < n && (#[trigger] bound_refs(l[k])).contains(x) {
            let k = choose|k: int| 0 <= k < n && (#[trigger] bound_refs(l[k])).contains(x);
            if k < n - 1 {
                assert(bounds_refs(l, n - 1).contains(x));
            }
        }
    }
}

proof fn lemma_inject_extends(
    order: Seq<Seq<char>>,
    cl: Set<Seq<char>>,
    skip: Set<Seq<char>>,
    ps: Seq<ParamS>,
    j: int,
)
    ensures
        ps.len() <= inject_upto(order, cl, skip, ps, j).len(),
        forall|k: int| 0 <= k < ps.len() ==> inject_upto(order, cl, skip, ps, j)[k] == ps[k],
        forall|k: int|
            ps.len() <= k < inject_upto(order, cl, skip, ps, j).len() ==> param_is_type(
                #[trigger] inject_upto(order, cl, skip, ps, j)[k],
            ) && cl.contains(param_name(inject_upto(order, cl, skip, ps, j)[k])) && !skip.contains(
                param_name(inject_upto(order, cl, skip, ps, j)[k]),
            ) && param_bounds(inject_upto(order, cl, skip, ps, j)[k]) == Seq::<BoundS>::empty(),
    decreases j,
{
    if j > 0 {
        lemma_inject_extends(order, cl, skip, ps, j - 1);
    }
}

proof fn lemma_has_tparam_mono(
    order: Seq<Seq<char>>,
    cl: Set<Seq<char>>,
    skip: Set<Seq<char>>,
    ps: Seq<ParamS>,
    j: int,
    x: Seq<char>,
)
    requires
        has_tparam(ps, x),
    ensures
        has_tparam(inject_upto(order, cl, skip, ps, j), x),
{
    lemma_inject_extends(order, cl, skip, ps, j);
    let k = choose|k: int| 0 <= k < ps.len() && is_tparam_named(ps[k], x);
    assert(is_tparam_named(inject_upto(order, cl, skip, ps, j)[k], x));
}

proof fn lemma_inject_covers(
    order: Seq<Seq<char>>,
    cl: Set<Seq<char>>,
    skip: Set<Seq<char>>,
    ps: Seq<ParamS>,
    j: int,
)
    requires
        0 <= j <= order.len(),
    ensures
        forall|k: int|
            0 <= k < j && cl.contains(#[trigger] order[k]) && !skip.contains(order[k])
                ==> has_tparam(inject_upto(order, cl, skip, ps, j), order[k]),
    decreases j,
{
    if j > 0 {
        lemma_inject_covers(order, cl, skip, ps, j - 1);
        let prev = inject_upto(order, cl, skip, ps, j - 1);
        let cur = inject_upto(order, cl, skip, ps, j);
        assert forall|k: int|
            0 <= k < j && cl.contains(#[trigger] order[k]) && !skip.contains(order[k])
            implies has_tparam(cur, order[k]) by {
            if k < j - 1 {
                let i = choose|i: int| 0 <= i < prev.len() && is_tparam_named(prev[i], order[k]);
                if cl.contains(order[j - 1]) && !skip.contains(order[j - 1]) && !has_tparam(
                    prev,
                    order[j - 1],
                ) {
                    assert(is_tparam_named(cur[i], order[k]));
                } else {
                    assert(cur == prev);
                }
            } else {
                if has_tparam(prev, order[k]) {
                    let i = choose|i: int|
                        0 <= i < prev.len() && is_tparam_named(prev[i], order[k]);
                    if cur != prev {
                        assert(is_tparam_named(cur[i], order[k]));
                    }
                } else {
                    assert(cur == prev.push(
                        ParamS::Ty { name: order[k], bounds: Seq::empty() },
                    ));
                    assert(is_tparam_named(cur[prev.len() as int], order[k]));
                }
            }
        }
    }
}

proof fn lemma_inject_noop(
    order: Seq<Seq<char>>,
    cl: Set<Seq<char>>,
    skip: Set<Seq<char>>,
    ps: Seq<ParamS>,
    j: int,
)
    requires
        forall|n: Seq<char>|
            cl.contains(n) && order.contains(n) && !skip.contains(n) ==> has_tparam(ps, n),
        0 <= j <= order.len(),
    ensures
        inject_upto(order, cl, skip, ps, j) == ps,
    decreases j,
{
    if j > 0 {
        lemma_inject_noop(order, cl, skip, ps, j - 1);
        if cl.contains(order[j - 1]) && !skip.contains(order[j - 1]) {
            assert(order.contains(order[j - 1]));
            assert(has_tparam(ps, order[j - 1]));
        }
    }
}

proof fn lemma_bounds_of_refs(m: ModelS, n: Seq<char>, x: Seq<char>)
    requires
        model_wf(m),
        m.order.contains(n),
        bounds_refs(bounds_of(m, n), bounds_of(m, n).len() as int).contains(x),
        m.order.to_set().contains(x),
    ensures
        dep_of(m, n).contains(x) || x == n,
{
    crate::input::lemma_name_index(m.order, n);
}

/// How one bound-attaching step changes a parameter's referenced names:
/// nothing is lost, and anything new comes from the declared bounds of the
/// parameter's own (declared) name.
proof fn lemma_param_refs_addb(m: ModelS, p: ParamS, x: Seq<char>)
    requires
        model_wf(m),
    ensures
        param_refs(p).contains(x) ==> param_refs(add_bounds_param(m, p)).contains(x),
        param_refs(add_bounds_param(m, p)).contains(x) ==> param_refs(p).contains(x) || (
        param_is_type(p) && m.order.contains(param_name(p)) && bounds_refs(
            bounds_of(m, param_name(p)),
            bounds_of(m, param_name(p)).len() as int,
        ).contains(x)),
{
    match p {
        ParamS::Ty { name, bounds } => {
            if m.order.contains(name) {
                let bof = bounds_of(m, name);
                let missing = missing_bounds(bof, bounds);
                let bounds2 = bounds + missing;
                lemma_bounds_refs_mem(bounds, bounds.len() as int, x);
                lemma_bounds_refs_mem(bounds2, bounds2.len() as int, x);
                lemma_bounds_refs_mem(bof, bof.len() as int, x);
                if param_refs(p).contains(x) && x != name {
                    let k = choose|k: int|
                        0 <= k < bounds.len() && (#[trigger] bound_refs(bounds[k])).contains(x);
                    assert(bound_refs(bounds2[k]).contains(x));
                }
                if param_refs(add_bounds_param(m, p)).contains(x) && x != name
                    && !param_refs(p).contains(x) {
                    let k = choose|k: int|
                        0 <= k < bounds2.len() && (#[trigger] bound_refs(bounds2[k])).contains(
                            x,
                        );
                    assert(k >= bounds.len());
                    let b = missing[k - bounds.len()];
                    assert(missing.contains(b));
                    lemma_filter_in_source(bof, |bb: BoundS| !bounds.contains(bb), b);
                    let i = choose|i: int| 0 <= i < bof.len() && bof[i] == b;
                    assert(bound_refs(bof[i]).contains(x));
                }
            }
        },
        ParamS::Lifetime(_) => {},
        ParamS::Const { name: _, ty: _ } => {},
    }
}

proof fn lemma_sel_noop(m: ModelS, cl: Set<Seq<char>>, preds1: Seq<PredS>, j: int)
    requires
        0 <= j <= m.preds.len(),
        forall|i: int|
            0 <= i < m.preds.len() && (#[trigger] m.pred_namess[i]).subset_of(cl)
                ==> preds1.contains(m.preds[i]),
    ensures
        sel_preds_upto(m, cl, preds1, j) == Seq::<PredS>::empty(),
    decreases j,
{
    if j > 0 {
        lemma_sel_noop(m, cl, preds1, j - 1);
        assert(sel_preds_upto(m, cl, preds1, j) =~= Seq::<PredS>::empty());
    }
}

/// Idempotence of the generic-list step at one site: running it a second
/// time under the same scope changes nothing — no parameter, bound or
/// predicate is added twice. The one proviso: no type parameter already
/// written at the site carries the name of a skipped generic (an inner
/// item shadowing a generic its enclosing impl declares), since such a
/// parameter receives bounds whose dependencies only a later pass could
/// chase.
pub proof fn lemma_expand_idem(m: ModelS, skip: Set<Seq<char>>, g: GenericsS)
    requires
        model_wf(m),
        forall|k: int|
            0 <= k < g.params.len() ==> (param_is_type(#[trigger] g.params[k]) ==> !skip.contains(
                param_name(g.params[k]),
            )),
    ensures
        expand_spec(m, skip, expand_spec(m, skip, g)) == expand_spec(m, skip, g),
{
    let used1 = site_used(m, skip, g);
    let cs1 = closure(m, used1);
    let cl = site_closure(m, skip, g);
    let np = g.params.len() as int;
    let inj = inject_upto(m.order, cl, skip, g.params, m.order.len() as int);
    let ab = add_bounds(m, inj);
    let sel1 = sel_preds_upto(m, cl, g.preds, m.preds.len() as int);
    let g1 = expand_spec(m, skip, g);
    assert(g1.params == ab);
    assert(g1.preds == g.preds + sel1);
    lemma_closure_includes(m, used1);
    lemma_inject_extends(m.order, cl, skip, g.params, m.order.len() as int);
    lemma_add_bounds_names(m, inj);

    // Every declared type-parameter name at the expanded site lies in the
    // closure and outside the skip set.
    assert forall|k: int|
        0 <= k < inj.len() && param_is_type(#[trigger] inj[k]) && m.order.contains(
            param_name(inj[k]),
        ) implies cs1.contains(param_name(inj[k])) && !skip.contains(param_name(inj[k])) by {
        let n = param_name(inj[k]);
        if k < np {
            assert(param_refs(g.params[k]).contains(n));
            lemma_params_refs_mem(g.params, np, n);
            assert(params_refs(g.params, np).contains(n));
            assert(generics_refs(g).contains(n));
            assert(used1.contains(n));
        } else {
            assert(cl.contains(n));
        }
    }

    let used2 = site_used(m, skip, g1);

    // The first pass loses no referenced name.
    assert forall|x: Seq<char>| used1.contains(x) implies used2.contains(x) by {
        lemma_params_refs_mem(g.params, np, x);
        lemma_preds_refs_mem(g.preds, g.preds.len() as int, x);
        lemma_params_refs_mem(ab, ab.len() as int, x);
        lemma_preds_refs_mem(g1.preds, g1.preds.len() as int, x);
        if params_refs(g.params, np).contains(x) {
            let k = choose|k: int|
                0 <= k < np && (#[trigger] param_refs(g.params[k])).contains(x);
            lemma_param_refs_addb(m, inj[k], x);
            assert(param_refs(ab[k]).contains(x));
        } else {
            let k = choose|k: int|
                0 <= k < g.preds.len() && (#[trigger] pred_refs(g.preds[k])).contains(x);
            assert(g1.preds[k] == g.preds[k]);
            assert(pred_refs(g1.preds[k]).contains(x));
        }
    }

    // And everything the first pass writes was already in the closure.
    assert forall|x: Seq<char>| used2.contains(x) implies cs1.contains(x) by {
        lemma_params_refs_mem(ab, ab.len() as int, x);
        lemma_preds_refs_mem(g1.preds, g1.preds.len() as int, x);
        if params_refs(ab, ab.len() as int).contains(x) {
            let k = choose|k: int| 0 <= k < ab.len() && (#[trigger] param_refs(ab[k])).contains(
                x,
            );
            lemma_param_refs_addb(m, inj[k], x);
            if param_refs(inj[k]).contains(x) {
                if k < np {
                    assert(inj[k] == g.params[k]);
                    assert(param_refs(g.params[k]).contains(x));
                    lemma_params_refs_mem(g.params, np, x);
                    assert(params_refs(g.params, np).contains(x));
                    assert(used1.contains(x));
                } else {
                    lemma_bounds_refs_mem(param_bounds(inj[k]), 0, x);
                    assert(x == param_name(inj[k]));
                    assert(cl.contains(x));
                }
            } else {
                let n = param_name(inj[k]);
                lemma_bounds_of_refs(m, n, x);
                if x != n {
                    lemma_closure_step(m, used1, n);
                }
            }
        } else {
            let k = choose|k: int|
                0 <= k < g1.preds.len() && (#[trigger] pred_refs(g1.preds[k])).contains(x);
            if k < g.preds.len() {
                lemma_preds_refs_mem(g.preds, g.preds.len() as int, x);
                assert(pred_refs(g.preds[k]).contains(x));
                assert(preds_refs(g.preds, g.preds.len() as int).contains(x));
                assert(used1.contains(x));
            } else {
                let p = sel1[k - g.preds.len()];
                assert(sel1.contains(p));
                lemma_sel_preds_membership(m, cl, g.preds, m.preds.len() as int, p);
                let i = choose|i: int|
                    0 <= i < m.preds.len() && m.preds[i] == p && (
                    #[trigger] m.pred_namess[i]).subset_of(cl) && !g.preds.contains(p);
                assert(m.pred_namess[i] == pred_refs(p).intersect(m.order.to_set()));
                assert(m.pred_namess[i].contains(x));
            }
        }
    }
    crate::input::lemma_closure_squeeze(m, used1, used2);
    assert(site_closure(m, skip, g1) =~= cl);

    // Second pass: injection finds every closure member already present.
    lemma_inject_covers(m.order, cl, skip, g.params, m.order.len() as int);
    assert forall|n: Seq<char>|
        cl.contains(n) && m.order.contains(n) && !skip.contains(n) implies has_tparam(
        g1.params,
        n,
    ) by {
        let k = choose|k: int| 0 <= k < m.order.len() && m.order[k] == n;
        assert(has_tparam(inj, n));
        let i = choose|i: int| 0 <= i < inj.len() && is_tparam_named(inj[i], n);
        assert(param_is_type(ab[i]) && param_name(ab[i]) == n);
        assert(is_tparam_named(ab[i], n));
    }
    lemma_inject_noop(m.order, cl, skip, g1.params, m.order.len() as int);

    // Second pass: every declared bound is already attached.
    assert forall|k: int| 0 <= k < ab.len() implies add_bounds_param(m, #[trigger] ab[k])
        == ab[k] by {
        match inj[k] {
            ParamS::Ty { name, bounds } => {
                if m.order.contains(name) {
                    let bof = bounds_of(m, name);
                    let pred1 = |b: BoundS| !bounds.contains(b);
                    let bounds2 = bounds + missing_bounds(bof, bounds);
                    assert(ab[k] == ParamS::Ty { name, bounds: bounds2 });
                    let pred2 = |b: BoundS| !bounds2.contains(b);
                    assert forall|i: int| 0 <= i < bof.len() implies !pred2(
                        #[trigger] bof[i],
                    ) by {
                        if bounds.contains(bof[i]) {
                            lemma_seq_add_contains_any(
                                bounds,
                                missing_bounds(bof, bounds),
                                bof[i],
                            );
                        } else {
                            bof.lemma_filter_contains(pred1, i);
                            lemma_seq_add_contains_any(
                                bounds,
                                missing_bounds(bof, bounds),
                                bof[i],
                            );
                        }
                    }
                    lemma_filter_none(bof, pred2);
                    assert(bounds2 + missing_bounds(bof, bounds2) =~= bounds2);
                    assert(add_bounds_param(m, ab[k]) =~= ab[k]);
                } else {
                    assert(ab[k] == inj[k]);
                }
            },
            ParamS::Lifetime(_) => {
                assert(ab[k] == inj[k]);
            },
            ParamS::Const { name: _, ty: _ } => {
                assert(ab[k] == inj[k]);
            },
        }
    }
    assert(add_bounds(m, g1.params) =~= g1.params);

    // Second pass: every applicable predicate is already present.
    assert forall|i: int|
        0 <= i < m.preds.len() && (#[trigger] m.pred_namess[i]).subset_of(cl)
        implies g1.preds.contains(m.preds[i]) by {
        lemma_seq_add_contains_any(g.preds, sel1, m.preds[i]);
        if !g.preds.contains(m.preds[i]) {
            lemma_sel_preds_membership(m, cl, g.preds, m.preds.len() as int, m.preds[i]);
        }
    }
    lemma_sel_noop(m, cl, g1.preds, m.preds.len() as int);
    assert(g1.preds + sel_preds_upto(m, cl, g1.preds, m.preds.len() as int) =~= g1.preds);

    assert(expand_spec(m, skip, g1) =~= g1);
}

/// The scope skips none of the type-parameter names already written at
/// the site.
pub open spec fn no_skip_tparams(skip: Set<Seq<char>>, ps: Seq<ParamS>) -> bool {
    forall|k: int|
        0 <= k < ps.len() ==> (param_is_type(#[trigger] ps[k]) ==> !skip.contains(
            param_name(ps[k]),
        ))
}

/// Idempotence of the signature step: rewriting an already-rewritten
/// signature under the same scope changes nothing, under the same proviso
/// as at a single site.
pub proof fn lemma_sig_idem(m: ModelS, skip: Set<Seq<char>>, s: SigS)
    requires
        model_wf(m),
        no_skip_tparams(skip, s.generics.params),
    ensures
        sig_rw(m, skip, sig_rw(m, skip, s)) == sig_rw(m, skip, s),
{
    let primed = sig_primed(m, s);
    let ps1 = inject_upto(m.order, primed, skip, s.generics.params, m.order.len() as int);
    let g1 = GenericsS { params: ps1, preds: s.generics.preds };
    let s1 = sig_rw(m, skip, s);
    lemma_inject_extends(m.order, primed, skip, s.generics.params, m.order.len() as int);
    assert forall|k: int|
        0 <= k < ps1.len() implies (param_is_type(#[trigger] ps1[k]) ==> !skip.contains(
        param_name(ps1[k]),
    )) by {
        if k < s.generics.params.len() {
            assert(ps1[k] == s.generics.params[k]);
        }
    }
    lemma_expand_idem(m, skip, g1);
    lemma_inject_covers(m.order, primed, skip, s.generics.params, m.order.len() as int);
    let e1 = expand_spec(m, skip, g1);
    let cl1 = site_closure(m, skip, g1);
    let inj2 = inject_upto(m.order, cl1, skip, ps1, m.order.len() as int);
    lemma_add_bounds_names(m, inj2);
    assert forall|n: Seq<char>|
        primed.contains(n) && m.order.contains(n) && !skip.contains(n) implies has_tparam(
        e1.params,
        n,
    ) by {
        let k = choose|k: int| 0 <= k < m.order.len() && m.order[k] == n;
        assert(has_tparam(ps1, n));
        lemma_has_tparam_mono(m.order, cl1, skip, ps1, m.order.len() as int, n);
        let i = choose|i: int| 0 <= i < inj2.len() && is_tparam_named(inj2[i], n);
        assert(param_is_type(e1.params[i]) && param_name(e1.params[i]) == n);
        assert(is_tparam_named(e1.params[i], n));
    }
    assert(sig_primed(m, s1) == primed);
    lemma_inject_noop(m.order, primed, skip, e1.params, m.order.len() as int);
    assert(GenericsS {
        params: inject_upto(
            m.order,
            primed,
            skip,
            s1.generics.params,
            m.order.len() as int,
        ),
        preds: s1.generics.preds,
    } =~= e1);
    assert(sig_rw(m, skip, s1) =~= s1);
}

/// No item nested here declares a type parameter named like any module
/// generic at all.
pub open spec fn deep_clean(m: ModelS, item: ItemS) -> bool
    decreases item,
{
    match item {
        ItemS::Function { sig } => no_skip_tparams(m.order.to_set(), sig.generics.params),
        ItemS::Trait { generics, items } => no_skip_tparams(m.order.to_set(), generics.params)
            && (forall|i: int| 0 <= i < items.len() ==> deep_clean(m, #[trigger] items[i])),
        ItemS::Impl { generics, trait_path: _, self_ty: _, items } => no_skip_tparams(
            m.order.to_set(),
            generics.params,
        ) && (forall|i: int| 0 <= i < items.len() ==> deep_clean(m, #[trigger] items[i])),
        ItemS::Other => true,
    }
}

/// The item's own parameters collide with nothing the scope skips, and no
/// item nested inside a trait or impl re-declares a module generic.
pub open spec fn shadow_free(m: ModelS, skip: Set<Seq<char>>, item: ItemS) -> bool {
    match item {
        ItemS::Function { sig } => no_skip_tparams(skip, sig.generics.params),
        ItemS::Trait { generics, items } => no_skip_tparams(skip, generics.params) && (forall|
            i: int,
        | 0 <= i < items.len() ==> deep_clean(m, #[trigger] items[i])),
        ItemS::Impl { generics, trait_path: _, self_ty: _, items } => no_skip_tparams(
            skip,
            generics.params,
        ) && (forall|i: int| 0 <= i < items.len() ==> deep_clean(m, #[trigger] items[i])),
        ItemS::Other => true,
    }
}

proof fn lemma_deep_clean_shadow_free(m: ModelS, skip: Set<Seq<char>>, item: ItemS)
    requires
        deep_clean(m, item),
        skip.subset_of(m.order.to_set()),
    ensures
        shadow_free(m, skip, item),
{
    match item {
        ItemS::Function { sig } => {
            assert(no_skip_tparams(skip, sig.generics.params));
        },
        ItemS::Trait { generics, items } => {
            assert(no_skip_tparams(skip, generics.params));
        },
        ItemS::Impl { generics, trait_path: _, self_ty: _, items } => {
            assert(no_skip_tparams(skip, generics.params));
        },
        ItemS::Other => {},
    }
}

/// Idempotence of the item walk under one scope.
pub proof fn lemma_item_idem(m: ModelS, skip: Set<Seq<char>>, item: ItemS)
    requires
        model_wf(m),
        shadow_free(m, skip, item),
    ensures
        item_rw(m, skip, item_rw(m, skip, item)) == item_rw(m, skip, item),
    decreases item, 1int,
{
    match item {
        ItemS::Function { sig } => {
            lemma_sig_idem(m, skip, sig);
        },
        ItemS::Trait { generics, items } => {
            lemma_expand_idem(m, skip, generics);
            let g2 = expand_spec(m, skip, generics);
            let sk2 = narrowed_skip(m, g2.params);
            assert forall|i: int|
                0 <= i < items.len() implies shadow_free(m, sk2, #[trigger] items[i]) by {
                lemma_deep_clean_shadow_free(m, sk2, items[i]);
            }
            lemma_items_idem(m, sk2, items);
            assert(item_rw(m, skip, item_rw(m, skip, item)) =~= item_rw(m, skip, item));
        },
        ItemS::Impl { generics, trait_path, self_ty, items } => {
            let primed = impl_primed(m, trait_path, self_ty);
            let ps1 = inject_upto(m.order, primed, skip, generics.params, m.order.len() as int);
            let g1 = GenericsS { params: ps1, preds: generics.preds };
            lemma_inject_extends(m.order, primed, skip, generics.params, m.order.len() as int);
            assert forall|k: int|
                0 <= k < ps1.len() implies (param_is_type(#[trigger] ps1[k])
                ==> !skip.contains(param_name(ps1[k]))) by {
                if k < generics.params.len() {
                    assert(ps1[k] == generics.params[k]);
                }
            }
            lemma_expand_idem(m, skip, g1);
            lemma_inject_covers(m.order, primed, skip, generics.params, m.order.len() as int);
            let g2 = expand_spec(m, skip, g1);
            let cl1 = site_closure(m, skip, g1);
            let inj2 = inject_upto(m.order, cl1, skip, ps1, m.order.len() as int);
            lemma_add_bounds_names(m, inj2);
            assert forall|n: Seq<char>|
                primed.contains(n) && m.order.contains(n) && !skip.contains(n)
                implies has_tparam(g2.params, n) by {
                let k = choose|k: int| 0 <= k < m.order.len() && m.order[k] == n;
                assert(has_tparam(ps1, n));
                lemma_has_tparam_mono(m.order, cl1, skip, ps1, m.order.len() as int, n);
                let i = choose|i: int| 0 <= i < inj2.len() && is_tparam_named(inj2[i], n);
                assert(param_is_type(g2.params[i]) && param_name(g2.params[i]) == n);
                assert(is_tparam_named(g2.params[i], n));
            }
            lemma_inject_noop(m.order, primed, skip, g2.params, m.order.len() as int);
            let sk2 = narrowed_skip(m, g2.params);
            assert forall|i: int|
                0 <= i < items.len() implies shadow_free(m, sk2, #[trigger] items[i]) by {
                lemma_deep_clean_shadow_free(m, sk2, items[i]);
            }
            lemma_items_idem(m, sk2, items);
            assert(GenericsS {
                params: inject_upto(m.order, primed, skip, g2.params, m.order.len() as int),
                preds: g2.preds,
            } =~= g2);
            assert(item_rw(m, skip, item_rw(m, skip, item)) =~= item_rw(m, skip, item));
        },
        ItemS::Other => {},
    }
}

/// Idempotence of the walk over an item list: rewriting the rewritten
/// list under the same scope gives it back unchanged.
pub proof fn lemma_items_idem(m: ModelS, skip: Set<Seq<char>>, items: Seq<ItemS>)
    requires
        model_wf(m),
        forall|i: int| 0 <= i < items.len() ==> shadow_free(m, skip, #[trigger] items[i]),
    ensures
        items_rw(
            m,
            skip,
            items_rw(m, skip, items, items.len() as int),
            items_rw(m, skip, items, items.len() as int).len() as int,
        ) == items_rw(m, skip, items, items.len() as int),
    decreases items, 0int,
{
    let items1 = items_rw(m, skip, items, items.len() as int);
    lemma_items_rw(m, skip, items, items.len() as int);
    lemma_items_rw(m, skip, items1, items1.len() as int);
    assert forall|k: int| 0 <= k < items.len() implies item_rw(
        m,
        skip,
        #[trigger] items1[k],
    ) == items1[k] by {
        lemma_item_idem(m, skip, items[k]);
    }
    assert(items_rw(m, skip, items1, items1.len() as int) =~= items1);
}

/// Idempotence of the whole pass: rewriting a module body twice with one
/// model yields exactly what one pass yields — no duplicate parameters,
/// bounds or predicates, in the same order. The one proviso: no item
/// nested inside a trait or impl declares its own type parameter named
/// like a module generic (such a shadowing parameter receives the declared
/// bounds, whose dependencies only a later pass would chase).
pub proof fn lemma_rewrite_idempotent(m: ModelS, items: Seq<ItemS>)
    requires
        model_wf(m),
        forall|i: int|
            0 <= i < items.len() ==> shadow_free(m, Set::empty(), #[trigger] items[i]),
    ensures
        items_rw(
            m,
            Set::empty(),
            items_rw(m, Set::empty(), items, items.len() as int),
            items_rw(m, Set::empty(), items, items.len() as int).len() as int,
        ) == items_rw(m, Set::empty(), items, items.len() as int),
{
    lemma_items_idem(m, Set::empty(), items);
}

/// Predicate gating: a declared where-clause predicate stands in a
/// rewritten site's where clause exactly when it stood there before, or
/// every declared generic it mentions lies in the site's final closed
/// generic set and the site did not already hold it; otherwise it is
/// omitted entirely.
pub proof fn lemma_predicate_gating(m: ModelS, skip: Set<Seq<char>>, g: GenericsS, p: PredS)
    ensures
        expand_spec(m, skip, g).preds.contains(p) <==> g.preds.contains(p) || (exists|i: int|
            0 <= i < m.preds.len() && m.preds[i] == p && (#[trigger] m.pred_namess[i]).subset_of(
                site_closure(m, skip, g),
            ) && !g.preds.contains(p)),
{
    let cl = site_closure(m, skip, g);
    lemma_seq_add_contains_any(g.preds, sel_preds_upto(m, cl, g.preds, m.preds.len() as int), p);
    lemma_sel_preds_membership(m, cl, g.preds, m.preds.len() as int, p);
}

} // verus!
