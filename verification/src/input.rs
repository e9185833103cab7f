//! The module-generics model: built once from the declaration, it records
//! each declared generic's bounds, its direct dependencies on the other
//! declared generics, and the where-clause predicates with the declared
//! names each one mentions. It offers the transitive closure of a set of
//! names under the dependency edges.
use vstd::prelude::*;

use crate::ast::{
    Bound, BoundS, GenericParam, ParamS, PredS, Predicate, abs_bounds, abs_param, abs_params,
    abs_pred, abs_preds, clone_bounds, lemma_abs_bounds, lemma_abs_params, lemma_abs_preds,
};
use crate::utils::{
    bounds_refs, filtered_names, get_bounds_mod_generics, get_predicate_mod_generics,
    lemma_names_bound, lemma_names_push, lemma_nset_elem, lemma_nset_pick, names_of, nset, str_in,
    pred_refs,
};

verus! {

/// Why an application is rejected.
#[derive(Debug)]
pub enum RewriteError {
    /// The declaration holds a generic parameter that is not a type
    /// parameter (a lifetime or const parameter).
    DeclarationError,
    /// The target container has no body.
    StructuralError,
}

// ---------------------------------------------------------------------------
// The mathematical model
// ---------------------------------------------------------------------------

/// The mathematical content of a built [`ModuleGenerics`] value.
#[verifier::ext_equal]
pub struct ModelS {
    /// Declared names, in declaration order.
    pub order: Seq<Seq<char>>,
    /// For each declared name, the other declared names in its bounds.
    pub depss: Seq<Set<Seq<char>>>,
    /// For each declared name, its declared bounds.
    pub boundss: Seq<Seq<BoundS>>,
    /// The where-clause predicates of the declaration.
    pub preds: Seq<PredS>,
    /// For each predicate, the declared names it mentions.
    pub pred_namess: Seq<Set<Seq<char>>>,
}

/// The first position of a name in the declaration order.
pub open spec fn name_index(order: Seq<Seq<char>>, g: Seq<char>) -> int
    decreases order.len(),
{
    if order.len() == 0 {
        0
    } else if order[0] == g {
        0
    } else {
        1 + name_index(order.drop_first(), g)
    }
}

pub proof fn lemma_name_index(order: Seq<Seq<char>>, g: Seq<char>)
    requires
        order.contains(g),
    ensures
        0 <= name_index(order, g) < order.len(),
        order[name_index(order, g)] == g,
        forall|k: int| 0 <= k < name_index(order, g) ==> order[k] != g,
    decreases order.len(),
{
    if order[0] != g {
        let i = choose|i: int| 0 <= i < order.len() && order[i] == g;
        assert(order.drop_first()[i - 1] == g);
        assert(order.drop_first().contains(g));
        lemma_name_index(order.drop_first(), g);
        assert forall|k: int| 0 <= k < name_index(order, g) implies order[k] != g by {
            if k > 0 {
                assert(order.drop_first()[k - 1] == order[k]);
            }
        }
    }
}

pub proof fn lemma_name_index_unique(order: Seq<Seq<char>>, g: Seq<char>, j: int)
    requires
        0 <= j < order.len(),
        order[j] == g,
        forall|k: int| 0 <= k < j ==> order[k] != g,
    ensures
        name_index(order, g) == j,
    decreases order.len(),
{
    if j == 0 {
    } else {
        assert(order[0] != g);
        assert(order.drop_first()[j - 1] == g);
        assert forall|k: int| 0 <= k < j - 1 implies order.drop_first()[k] != g by {
            assert(order.drop_first()[k] == order[k + 1]);
        }
        lemma_name_index_unique(order.drop_first(), g, j - 1);
    }
}

/// The direct dependencies of a declared name.
pub open spec fn dep_of(m: ModelS, g: Seq<char>) -> Set<Seq<char>> {
    m.depss[name_index(m.order, g)]
}

/// The declared bounds of a declared name.
pub open spec fn bounds_of(m: ModelS, g: Seq<char>) -> Seq<BoundS> {
    m.boundss[name_index(m.order, g)]
}

/// Well-formedness of a model: the parallel lists line up, each dependency
/// set is exactly the other declared names referenced in the matching bound
/// list, and each predicate's name set is exactly the declared names it
/// mentions.
pub open spec fn model_wf(m: ModelS) -> bool {
    &&& m.depss.len() == m.order.len()
    &&& m.boundss.len() == m.order.len()
    &&& m.pred_namess.len() == m.preds.len()
    &&& forall|i: int|
        0 <= i < m.order.len() ==> m.depss[i] == bounds_refs(
            m.boundss[i],
            m.boundss[i].len() as int,
        ).intersect(m.order.to_set()).remove(m.order[i])
    &&& forall|i: int|
        0 <= i < m.preds.len() ==> m.pred_namess[i] == pred_refs(m.preds[i]).intersect(
            m.order.to_set(),
        )
}

pub proof fn lemma_dep_of_declared(m: ModelS, g: Seq<char>)
    requires
        model_wf(m),
        m.order.contains(g),
    ensures
        dep_of(m, g).subset_of(m.order.to_set()),
        !dep_of(m, g).contains(g),
{
    lemma_name_index(m.order, g);
}

// ---------------------------------------------------------------------------
// Reachability along dependency edges, and the closure
// ---------------------------------------------------------------------------

/// `x` can be reached from the set `s` in at most `n` dependency steps.
pub open spec fn reach(m: ModelS, s: Set<Seq<char>>, x: Seq<char>, n: nat) -> bool
    decreases n,
{
    if n == 0 {
        s.contains(x)
    } else {
        reach(m, s, x, (n - 1) as nat) || (exists|g: Seq<char>|
            reach(m, s, g, (n - 1) as nat) && m.order.contains(g) && (#[trigger] dep_of(
                m,
                g,
            )).contains(x))
    }
}

/// The transitive closure of `s` under the dependency edges: everything
/// reachable from `s` in any number of steps, `s` itself included.
pub open spec fn closure(m: ModelS, s: Set<Seq<char>>) -> Set<Seq<char>> {
    Set::new(|x: Seq<char>| exists|n: nat| reach(m, s, x, n))
}

pub proof fn lemma_closure_includes(m: ModelS, s: Set<Seq<char>>)
    ensures
        s.subset_of(closure(m, s)),
{
    assert forall|x: Seq<char>| s.contains(x) implies closure(m, s).contains(x) by {
        assert(reach(m, s, x, 0));
    }
}

/// The closure is closed: the dependencies of any declared member are
/// members too.
pub proof fn lemma_closure_step(m: ModelS, s: Set<Seq<char>>, g: Seq<char>)
    requires
        closure(m, s).contains(g),
        m.order.contains(g),
    ensures
        dep_of(m, g).subset_of(closure(m, s)),
{
    let n = choose|n: nat| reach(m, s, g, n);
    assert forall|x: Seq<char>| dep_of(m, g).contains(x) implies closure(m, s).contains(x) by {
        assert(reach(m, s, x, n + 1));
    }
}

pub proof fn lemma_reach_in_closed(
    m: ModelS,
    s: Set<Seq<char>>,
    t: Set<Seq<char>>,
    x: Seq<char>,
    n: nat,
)
    requires
        reach(m, s, x, n),
        s.subset_of(t),
        forall|g: Seq<char>|
            t.contains(g) && m.order.contains(g) ==> (#[trigger] dep_of(m, g)).subset_of(t),
    ensures
        t.contains(x),
    decreases n,
{
    if n > 0 {
        if reach(m, s, x, (n - 1) as nat) {
            lemma_reach_in_closed(m, s, t, x, (n - 1) as nat);
        } else {
            let g = choose|g: Seq<char>|
                reach(m, s, g, (n - 1) as nat) && m.order.contains(g) && (#[trigger] dep_of(
                    m,
                    g,
                )).contains(x);
            lemma_reach_in_closed(m, s, t, g, (n - 1) as nat);
            assert(dep_of(m, g).subset_of(t));
        }
    }
}

/// The closure is the least closed superset: it is inside every set that
/// includes the seed and is closed under the dependency edges.
pub proof fn lemma_closure_in_closed(m: ModelS, s: Set<Seq<char>>, t: Set<Seq<char>>)
    requires
        s.subset_of(t),
        forall|g: Seq<char>|
            t.contains(g) && m.order.contains(g) ==> (#[trigger] dep_of(m, g)).subset_of(t),
    ensures
        closure(m, s).subset_of(t),
{
    assert forall|x: Seq<char>| closure(m, s).contains(x) implies t.contains(x) by {
        let n = choose|n: nat| reach(m, s, x, n);
        lemma_reach_in_closed(m, s, t, x, n);
    }
}

pub proof fn lemma_closure_mono(m: ModelS, s1: Set<Seq<char>>, s2: Set<Seq<char>>)
    requires
        s1.subset_of(s2),
    ensures
        closure(m, s1).subset_of(closure(m, s2)),
{
    lemma_closure_includes(m, s2);
    assert forall|g: Seq<char>|
        closure(m, s2).contains(g) && m.order.contains(g) implies (#[trigger] dep_of(
        m,
        g,
    )).subset_of(closure(m, s2)) by {
        lemma_closure_step(m, s2, g);
    }
    lemma_closure_in_closed(m, s1, closure(m, s2));
}

/// Closing a set that sits between a seed and its closure adds nothing new.
pub proof fn lemma_closure_squeeze(m: ModelS, s: Set<Seq<char>>, u: Set<Seq<char>>)
    requires
        s.subset_of(u),
        u.subset_of(closure(m, s)),
    ensures
        closure(m, u) == closure(m, s),
{
    lemma_closure_mono(m, s, u);
    assert forall|g: Seq<char>|
        closure(m, s).contains(g) && m.order.contains(g) implies (#[trigger] dep_of(
        m,
        g,
    )).subset_of(closure(m, s)) by {
        lemma_closure_step(m, s, g);
    }
    lemma_closure_in_closed(m, u, closure(m, s));
    assert(closure(m, u) =~= closure(m, s));
}

/// Every collected dependency lies in the closure of the seed and outside
/// the seed itself.
pub open spec fn deps_ok(m: ModelS, s: Set<Seq<char>>, l: Seq<String>) -> bool {
    forall|x: Seq<char>|
        #[trigger] nset(l).contains(x) ==> closure(m, s).contains(x) && !s.contains(x)
}

// ---------------------------------------------------------------------------
// The executable model
// ---------------------------------------------------------------------------

/// The declaration handed to an application, in its structured form: the
/// generic-parameter list and the optional where clause.
pub struct ModuleGenericAttribute {
    pub generics: Vec<GenericParam>,
    pub where_clause: Option<Vec<Predicate>>,
}

/// The built model. The lists are parallel to `generics`: entry `i` of
/// `generics_dependencies` and of `generics_bounds` belongs to declared
/// name `i`, and `predicates_generics` is parallel to `predicates`.
pub struct ModuleGenerics {
    /// The declared generic names, in declaration order.
    pub generics: Vec<String>,
    /// For each declared generic, the other declared generics referenced in
    /// its own bounds.
    pub generics_dependencies: Vec<Vec<String>>,
    /// For each declared generic, its declared bounds.
    pub generics_bounds: Vec<Vec<Bound>>,
    /// The where-clause predicates of the declaration.
    pub predicates: Vec<Predicate>,
    /// For each predicate, the declared generics it mentions.
    pub predicates_generics: Vec<Vec<String>>,
}

/// The mathematical model a built value stands for.
pub open spec fn abs_model(mg: ModuleGenerics) -> ModelS {
    ModelS {
        order: names_of(mg.generics@),
        depss: Seq::new(
            mg.generics_dependencies@.len(),
            |i: int| nset(mg.generics_dependencies@[i]@),
        ),
        boundss: Seq::new(
            mg.generics_bounds@.len(),
            |i: int|
                abs_bounds(mg.generics_bounds@[i]@, mg.generics_bounds@[i]@.len() as int),
        ),
        preds: abs_preds(mg.predicates@, mg.predicates@.len() as int),
        pred_namess: Seq::new(
            mg.predicates_generics@.len(),
            |i: int| nset(mg.predicates_generics@[i]@),
        ),
    }
}

/// The name of a declared parameter.
pub open spec fn param_name(p: ParamS) -> Seq<char> {
    match p {
        ParamS::Ty { name, bounds: _ } => name,
        ParamS::Lifetime(n) => n,
        ParamS::Const { name, ty: _ } => name,
    }
}

/// The declared bounds of a parameter; only a type parameter has any.
pub open spec fn param_bounds(p: ParamS) -> Seq<BoundS> {
    match p {
        ParamS::Ty { name: _, bounds } => bounds,
        ParamS::Lifetime(_) => Seq::empty(),
        ParamS::Const { name: _, ty: _ } => Seq::empty(),
    }
}

pub open spec fn param_is_type(p: ParamS) -> bool {
    match p {
        ParamS::Ty { name: _, bounds: _ } => true,
        ParamS::Lifetime(_) => false,
        ParamS::Const { name: _, ty: _ } => false,
    }
}

/// Every parameter of the declaration is a type parameter.
pub open spec fn all_type_params(ps: Seq<ParamS>) -> bool {
    forall|k: int| 0 <= k < ps.len() ==> param_is_type(#[trigger] ps[k])
}

/// The predicates of a declaration.
pub open spec fn attr_preds(attr: ModuleGenericAttribute) -> Seq<PredS> {
    match attr.where_clause {
        Some(v) => abs_preds(v@, v@.len() as int),
        None => Seq::empty(),
    }
}

/// What building the model from an accepted declaration yields. Each
/// dependency set is computed against the full declared list — forward
/// references included — and never holds the generic's own name.
pub open spec fn build_model(ps: Seq<ParamS>, prs: Seq<PredS>) -> ModelS {
    let order = Seq::new(ps.len(), |i: int| param_name(ps[i]));
    ModelS {
        order: order,
        depss: Seq::new(
            ps.len(),
            |i: int|
                bounds_refs(param_bounds(ps[i]), param_bounds(ps[i]).len() as int).intersect(
                    order.to_set(),
                ).remove(param_name(ps[i])),
        ),
        boundss: Seq::new(ps.len(), |i: int| param_bounds(ps[i])),
        preds: prs,
        pred_namess: Seq::new(prs.len(), |i: int| pred_refs(prs[i]).intersect(order.to_set())),
    }
}

pub proof fn lemma_build_model_wf(ps: Seq<ParamS>, prs: Seq<PredS>)
    ensures
        model_wf(build_model(ps, prs)),
{
}

/// The position of the first list member equal to the given string.
pub fn find_name(l: &Vec<String>, s: &String) -> (r: Option<usize>)
    ensures
        match r {
            Some(i) => i < l@.len() && l@[i as int]@ == s@ && (forall|k: int|
                0 <= k < i ==> l@[k]@ != s@),
            None => !nset(l@).contains(s@),
        },
{
    let mut i: usize = 0;
    while i < l.len()
        invariant
            0 <= i <= l@.len(),
            forall|k: int| 0 <= k < i ==> l@[k]@ != s@,
        decreases l@.len() - i,
    {
        if l[i] == *s {
            return Some(i);
        }
        i += 1;
    }
    proof {
        if nset(l@).contains(s@) {
            lemma_nset_pick(l@, s@);
        }
    }
    None
}

/// A copy of the list without the members equal to the given name.
fn remove_name(l: &Vec<String>, n: &String) -> (r: Vec<String>)
    ensures
        nset(r@) == nset(l@).remove(n@),
{
    let mut r: Vec<String> = Vec::new();
    let mut i: usize = 0;
    proof {
        if nset(r@).contains(n@) {
            lemma_nset_pick(r@, n@);
        }
    }
    while i < l.len()
        invariant
            0 <= i <= l@.len(),
            forall|x: Seq<char>|
                nset(r@).contains(x) ==> nset(l@).contains(x) && x != n@,
            forall|k: int| 0 <= k < i ==> (l@[k]@ == n@ || nset(r@).contains(l@[k]@)),
        decreases l@.len() - i,
    {
        let ghost old_r = r@;
        if !(l[i] == *n) {
            r.push(l[i].clone());
            proof {
                lemma_names_push(old_r, l@[i as int]);
                lemma_nset_elem(l@, i as int);
            }
        }
        i += 1;
    }
    proof {
        assert forall|x: Seq<char>| nset(l@).remove(n@).contains(x) implies nset(r@).contains(
            x,
        ) by {
            lemma_nset_pick(l@, x);
            let k = choose|k: int| 0 <= k < l@.len() && l@[k]@ == x;
        }
        assert(nset(r@) =~= nset(l@).remove(n@));
    }
    r
}

impl ModuleGenerics {
    /// Builds the model from the declaration: collects the declared names
    /// in order, rejecting any non-type parameter; computes each name's
    /// direct dependencies from its own bounds against the full declared
    /// list, leaving the name itself out; and records, for each where-clause
    /// predicate, the declared names it mentions.
    pub fn from_attribute(attr: ModuleGenericAttribute) -> (r: Result<
        ModuleGenerics,
        RewriteError,
    >)
        ensures
            match r {
                Ok(mg) => all_type_params(abs_params(attr.generics@, attr.generics@.len() as int))
                    && abs_model(mg) == build_model(
                    abs_params(attr.generics@, attr.generics@.len() as int),
                    attr_preds(attr),
                ) && model_wf(abs_model(mg)),
                Err(e) => e == RewriteError::DeclarationError && !all_type_params(
                    abs_params(attr.generics@, attr.generics@.len() as int),
                ),
            },
    {
        let ghost aps = abs_params(attr.generics@, attr.generics@.len() as int);
        let ghost aprs = attr_preds(attr);
        proof {
            lemma_abs_params(attr.generics@, attr.generics@.len() as int);
        }
        let mut generics: Vec<String> = Vec::new();
        let mut generics_bounds: Vec<Vec<Bound>> = Vec::new();
        let mut i: usize = 0;
        while i < attr.generics.len()
            invariant
                0 <= i <= attr.generics@.len(),
                aps == abs_params(attr.generics@, attr.generics@.len() as int),
                aps.len() == attr.generics@.len(),
                forall|k: int| 0 <= k < aps.len() ==> aps[k] == abs_param(attr.generics@[k]),
                generics@.len() == i,
                generics_bounds@.len() == i,
                forall|k: int| 0 <= k < i ==> param_is_type(#[trigger] aps[k]),
                forall|k: int| 0 <= k < i ==> generics@[k]@ == param_name(aps[k]),
                forall|k: int|
                    0 <= k < i ==> abs_bounds(
                        #[trigger] generics_bounds@[k]@,
                        generics_bounds@[k]@.len() as int,
                    ) == param_bounds(aps[k]),
            decreases attr.generics@.len() - i,
        {
            match &attr.generics[i] {
                GenericParam::Ty { name, bounds } => {
                    generics.push(name.clone());
                    generics_bounds.push(clone_bounds(bounds));
                },
                GenericParam::Lifetime(_) => {
                    proof {
                        assert(!param_is_type(aps[i as int]));
                    }
                    return Err(RewriteError::DeclarationError);
                },
                GenericParam::Const { name: _, ty: _ } => {
                    proof {
                        assert(!param_is_type(aps[i as int]));
                    }
                    return Err(RewriteError::DeclarationError);
                },
            }
            i += 1;
        }
        let ghost order = names_of(generics@);

        let mut generics_dependencies: Vec<Vec<String>> = Vec::new();
        let mut j: usize = 0;
        while j < generics.len()
            invariant
                0 <= j <= generics@.len(),
                generics@.len() == aps.len(),
                generics_bounds@.len() == aps.len(),
                order == names_of(generics@),
                aps == abs_params(attr.generics@, attr.generics@.len() as int),
                forall|k: int| 0 <= k < aps.len() ==> param_is_type(#[trigger] aps[k]),
                forall|k: int| 0 <= k < aps.len() ==> generics@[k]@ == param_name(aps[k]),
                forall|k: int|
                    0 <= k < aps.len() ==> abs_bounds(
                        #[trigger] generics_bounds@[k]@,
                        generics_bounds@[k]@.len() as int,
                    ) == param_bounds(aps[k]),
                generics_dependencies@.len() == j,
                forall|k: int|
                    0 <= k < j ==> nset(#[trigger] generics_dependencies@[k]@) == bounds_refs(
                        param_bounds(aps[k]),
                        param_bounds(aps[k]).len() as int,
                    ).intersect(order.to_set()).remove(param_name(aps[k])),
            decreases generics@.len() - j,
        {
            let all = get_bounds_mod_generics(&generics, &generics_bounds[j]);
            let dl = remove_name(&all, &generics[j]);
            proof {
                let refs = bounds_refs(
                    param_bounds(aps[j as int]),
                    param_bounds(aps[j as int]).len() as int,
                );
                crate::ast::lemma_abs_bounds(
                    generics_bounds@[j as int]@,
                    generics_bounds@[j as int]@.len() as int,
                );
                assert(nset(generics@).intersect(refs) =~= refs.intersect(order.to_set()));
            }
            generics_dependencies.push(dl);
            j += 1;
        }

        let predicates: Vec<Predicate> = match attr.where_clause {
            Some(v) => v,
            None => Vec::new(),
        };
        proof {
            lemma_abs_preds(predicates@, predicates@.len() as int);
            assert(abs_preds(predicates@, predicates@.len() as int) == aprs);
        }
        let mut predicates_generics: Vec<Vec<String>> = Vec::new();
        let mut p: usize = 0;
        while p < predicates.len()
            invariant
                0 <= p <= predicates@.len(),
                order == names_of(generics@),
                abs_preds(predicates@, predicates@.len() as int) == aprs,
                aprs.len() == predicates@.len(),
                forall|k: int|
                    0 <= k < predicates@.len() ==> abs_pred(#[trigger] predicates@[k]) == aprs[k],
                predicates_generics@.len() == p,
                forall|k: int|
                    0 <= k < p ==> nset(#[trigger] predicates_generics@[k]@) == pred_refs(
                        aprs[k],
                    ).intersect(order.to_set()),
            decreases predicates@.len() - p,
        {
            let pg = get_predicate_mod_generics(&generics, &predicates[p]);
            proof {
                let refs = pred_refs(aprs[p as int]);
                assert(nset(generics@).intersect(refs) =~= refs.intersect(order.to_set()));
            }
            predicates_generics.push(pg);
            p += 1;
        }

        let mg = ModuleGenerics {
            generics,
            generics_dependencies,
            generics_bounds,
            predicates,
            predicates_generics,
        };
        proof {
            let bm = build_model(aps, aprs);
            assert(abs_model(mg).order =~= bm.order);
            assert(abs_model(mg).depss =~~= bm.depss);
            assert(abs_model(mg).boundss =~~= bm.boundss);
            assert(abs_model(mg).pred_namess =~~= bm.pred_namess);
            assert(abs_model(mg) =~~= bm);
            lemma_build_model_wf(aps, aprs);
        }
        Ok(mg)
    }

    /// Appends to `deps` the members of dependency list `idx` that are in
    /// neither the seed list nor `deps` itself.
    fn push_new_deps(&self, generics: &Vec<String>, deps: &mut Vec<String>, idx: usize)
        requires
            idx < self.generics_dependencies@.len(),
            names_of(old(deps)@).no_duplicates(),
            forall|k: int|
                0 <= k < old(deps)@.len() ==> abs_model(*self).order.contains(old(deps)@[k]@),
            deps_ok(abs_model(*self), nset(generics@), old(deps)@),
            nset(self.generics_dependencies@[idx as int]@).subset_of(
                closure(abs_model(*self), nset(generics@)),
            ),
            nset(self.generics_dependencies@[idx as int]@).subset_of(
                abs_model(*self).order.to_set(),
            ),
        ensures
            names_of(final(deps)@).no_duplicates(),
            forall|k: int|
                0 <= k < final(deps)@.len() ==> abs_model(*self).order.contains(final(deps)@[k]@),
            deps_ok(abs_model(*self), nset(generics@), final(deps)@),
            nset(final(deps)@) == nset(old(deps)@).union(
                nset(self.generics_dependencies@[idx as int]@).difference(nset(generics@)),
            ),
            old(deps)@.is_prefix_of(final(deps)@),
    {
        let ghost m = abs_model(*self);
        let ghost s = nset(generics@);
        let ghost dset = nset(self.generics_dependencies@[idx as int]@);
        let ghost deps0 = deps@;
        let dl = &self.generics_dependencies[idx];
        let mut j: usize = 0;
        while j < dl.len()
            invariant
                0 <= j <= dl@.len(),
                dl@ == self.generics_dependencies@[idx as int]@,
                m == abs_model(*self),
                s == nset(generics@),
                dset == nset(dl@),
                dset.subset_of(closure(m, s)),
                dset.subset_of(m.order.to_set()),
                names_of(deps@).no_duplicates(),
                forall|k: int| 0 <= k < deps@.len() ==> m.order.contains(deps@[k]@),
                deps_ok(m, s, deps@),
                forall|x: Seq<char>|
                    #[trigger] nset(deps@).contains(x) ==> nset(deps0).contains(x) || (
                    dset.contains(x) && !s.contains(x)),
                forall|x: Seq<char>|
                    #[trigger] nset(deps0).contains(x) ==> nset(deps@).contains(x),
                deps0.is_prefix_of(deps@),
                forall|k: int|
                    0 <= k < j ==> (s.contains(#[trigger] dl@[k]@) || nset(deps@).contains(
                        dl@[k]@,
                    )),
            decreases dl@.len() - j,
        {
            let d = &dl[j];
            let in_seed = str_in(generics, d);
            if !in_seed {
                let in_deps = str_in(deps, d);
                if !in_deps {
                    let ghost prev = deps@;
                    deps.push(d.clone());
                    proof {
                        lemma_names_push(prev, dl@[j as int]);
                        lemma_nset_elem(dl@, j as int);
                        assert forall|x: Seq<char>| #[trigger] nset(deps@).contains(x) implies closure(
                            m,
                            s,
                        ).contains(x) && !s.contains(x) by {
                            if !nset(prev).contains(x) {
                                assert(x == dl@[j as int]@);
                                assert(dset.contains(x));
                            }
                        }
                    }
                }
            }
            j += 1;
        }
        proof {
        assert forall|x: Seq<char>|
                nset(deps0).union(dset.difference(s)).contains(x) implies nset(
                deps@,
            ).contains(x) by {
                if dset.contains(x) && !s.contains(x) {
                    lemma_nset_pick(dl@, x);
                    let k = choose|k: int| 0 <= k < dl@.len() && dl@[k]@ == x;
                    assert(s.contains(dl@[k]@) || nset(deps@).contains(dl@[k]@));
                }
            }
            assert(nset(deps@) =~= nset(deps0).union(dset.difference(s)));
        }
    }

    /// The declared generics that the given names depend on, directly or
    /// through other declared generics, leaving out the given names
    /// themselves. Cycles among the declared generics are harmless: a name
    /// is recorded at most once, so the search stops at a fixpoint.
    pub fn get_dependencies(&self, generics: &Vec<String>) -> (r: Vec<String>)
        requires
            model_wf(abs_model(*self)),
        ensures
            nset(r@) == closure(abs_model(*self), nset(generics@)).difference(nset(generics@)),
            names_of(r@).no_duplicates(),
    {
        let ghost m = abs_model(*self);
        let ghost s = nset(generics@);
        let mut deps: Vec<String> = Vec::new();
        proof {
            assert forall|x: Seq<char>| !nset(deps@).contains(x) by {
                if nset(deps@).contains(x) {
                    lemma_nset_pick(deps@, x);
                }
            }
        }

        let mut gi: usize = 0;
        while gi < generics.len()
            invariant
                0 <= gi <= generics@.len(),
                m == abs_model(*self),
                s == nset(generics@),
                model_wf(m),
                names_of(deps@).no_duplicates(),
                deps@.len() <= m.order.len(),
                forall|k: int| 0 <= k < deps@.len() ==> m.order.contains(deps@[k]@),
                deps_ok(m, s, deps@),
                forall|k: int|
                    0 <= k < gi ==> (m.order.contains(#[trigger] generics@[k]@) ==> dep_of(
                        m,
                        generics@[k]@,
                    ).subset_of(s.union(nset(deps@)))),
            decreases generics@.len() - gi,
        {
            let g = &generics[gi];
            let found = find_name(&self.generics, g);
            match found {
                Some(i) => {
                    proof {
                        assert(m.order[i as int] == g@);
                        assert(m.order.contains(g@));
                        lemma_name_index_unique(m.order, g@, i as int);
                        assert(dep_of(m, g@) == m.depss[i as int]);
                        lemma_nset_elem(generics@, gi as int);
                        lemma_closure_includes(m, s);
                        lemma_closure_step(m, s, g@);
                        lemma_dep_of_declared(m, g@);
                    }
                    self.push_new_deps(generics, &mut deps, i);
                    proof {
                        lemma_names_bound(deps@, m.order);
                    }
                },
                None => {
                    proof {
                        assert forall|k: int|
                            0 <= k <= gi && k < generics@.len() implies (m.order.contains(
                            #[trigger] generics@[k]@,
                        ) ==> dep_of(m, generics@[k]@).subset_of(s.union(nset(deps@)))) by {
                            if k == gi && m.order.contains(generics@[k]@) {
                                assert(nset(self.generics@).contains(generics@[k]@));
                            }
                        }
                    }
                },
            }
            gi += 1;
        }

        proof {
            assert forall|g: Seq<char>|
                s.contains(g) && m.order.contains(g) implies dep_of(m, g).subset_of(
                s.union(nset(deps@)),
            ) by {
                lemma_nset_pick(generics@, g);
                let k = choose|k: int| 0 <= k < generics@.len() && generics@[k]@ == g;
            }
        }

        let mut i: usize = 0;
        while i < deps.len()
            invariant
                0 <= i <= deps@.len(),
                m == abs_model(*self),
                s == nset(generics@),
                model_wf(m),
                names_of(deps@).no_duplicates(),
                deps@.len() <= m.order.len(),
                forall|k: int| 0 <= k < deps@.len() ==> m.order.contains(deps@[k]@),
                deps_ok(m, s, deps@),
                forall|g: Seq<char>|
                    s.contains(g) && m.order.contains(g) ==> (#[trigger] dep_of(m, g)).subset_of(
                        s.union(nset(deps@)),
                    ),
                forall|k: int|
                    0 <= k < i ==> dep_of(m, #[trigger] deps@[k]@).subset_of(
                        s.union(nset(deps@)),
                    ),
            decreases m.order.len() - i,
        {
            let g = deps[i].clone();
            let found = find_name(&self.generics, &g);
            match found {
                Some(gidx) => {
                    proof {
                        assert(m.order[gidx as int] == g@);
                        assert(m.order.contains(g@));
                        lemma_name_index_unique(m.order, g@, gidx as int);
                        assert(dep_of(m, g@) == m.depss[gidx as int]);
                        lemma_nset_elem(deps@, i as int);
                        lemma_closure_step(m, s, g@);
                        lemma_dep_of_declared(m, g@);
                    }
                    let ghost before = deps@;
                    self.push_new_deps(generics, &mut deps, gidx);
                    proof {
                        lemma_names_bound(deps@, m.order);
                        assert forall|k: int|
                            0 <= k <= i as int implies dep_of(m, #[trigger] deps@[k]@).subset_of(
                            s.union(nset(deps@)),
                        ) by {
                            assert(deps@[k] == before[k]);
                            if k < i as int {
                                assert(dep_of(m, before[k]@).subset_of(s.union(nset(before))));
                            } else {
                                assert(before[k]@ == g@);
                                assert(dep_of(m, g@) == m.depss[gidx as int]);
                            }
                        }
                    }
                },
                None => {
                    proof {
                        assert(m.order.contains(deps@[i as int]@));
                        assert(nset(self.generics@).contains(g@));
                        assert(false);
                    }
                },
            }
            i += 1;
        }

        proof {
            let t = s.union(nset(deps@));
            assert forall|g: Seq<char>|
                t.contains(g) && m.order.contains(g) implies (#[trigger] dep_of(m, g)).subset_of(
                t,
            ) by {
                if nset(deps@).contains(g) {
                    lemma_nset_pick(deps@, g);
                    let k = choose|k: int| 0 <= k < deps@.len() && deps@[k]@ == g;
                    assert(dep_of(m, deps@[k]@).subset_of(t));
                }
            }
            lemma_closure_includes(m, s);
            lemma_closure_in_closed(m, s, t);
            assert(nset(deps@) =~= closure(m, s).difference(s));
        }
        deps
    }
}

} // verus!
