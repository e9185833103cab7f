//! The dependency analyzer: for any fragment of the tree — a bound, a type,
//! a generics list, a where-clause predicate, a path-argument list — find
//! which of the declared module generics it references, anywhere in its
//! nested structure.
//!
//! A name counts as referenced where it occurs as a bare single-segment
//! path without arguments (in a type or in a trait bound), or as the
//! identifier of a type-kind generic parameter; lifetime and const
//! parameters are never matched.
use vstd::prelude::*;

use crate::ast::{
    Arg, ArgS, Bound, BoundS, GenericParam, Generics, GenericsS, ParamS, PredS, Predicate, Seg,
    SegS, Ty, TyS, abs_arg, abs_args, abs_bound, abs_bounds, abs_generics, abs_param, abs_params,
    abs_pred, abs_preds, abs_seg, abs_segs, abs_ty, abs_tys, lemma_abs_args, lemma_abs_bounds,
    lemma_abs_params, lemma_abs_preds, lemma_abs_segs, lemma_abs_tys,
};

verus! {

broadcast use
    vstd::seq::axiom_seq_index_decreases,
    vstd::std_specs::vec::axiom_vec_index_decreases,
    vstd::std_specs::vec::axiom_vec_decreases_to_view;

// ---------------------------------------------------------------------------
// Names
// ---------------------------------------------------------------------------

/// The character sequences of a list of names.
pub open spec fn names_of(l: Seq<String>) -> Seq<Seq<char>> {
    l.map_values(|s: String| s@)
}

/// The set of names held by a list of strings.
pub open spec fn nset(l: Seq<String>) -> Set<Seq<char>> {
    names_of(l).to_set()
}

pub proof fn lemma_nset_elem(l: Seq<String>, k: int)
    requires
        0 <= k < l.len(),
    ensures
        nset(l).contains(l[k]@),
{
    assert(names_of(l)[k] == l[k]@);
    assert(names_of(l).contains(l[k]@));
}

pub proof fn lemma_nset_pick(l: Seq<String>, x: Seq<char>)
    requires
        nset(l).contains(x),
    ensures
        exists|i: int| 0 <= i < l.len() && l[i]@ == x,
{
    let i = choose|i: int| 0 <= i < names_of(l).len() && names_of(l)[i] == x;
    assert(0 <= i < l.len() && l[i]@ == x);
}

pub proof fn lemma_names_push(l: Seq<String>, v: String)
    ensures
        names_of(l.push(v)) == names_of(l).push(v@),
        nset(l.push(v)) == nset(l).insert(v@),
        names_of(l).no_duplicates() && !nset(l).contains(v@) ==> names_of(
            l.push(v),
        ).no_duplicates(),
{
    assert(names_of(l.push(v)) =~= names_of(l).push(v@));
    names_of(l).lemma_push_to_set_commute(v@);
    if names_of(l).no_duplicates() && !nset(l).contains(v@) {
        assert forall|k: int| 0 <= k < l.len() implies names_of(l)[k] != v@ by {
            if names_of(l)[k] == v@ {
                assert(names_of(l).contains(v@));
            }
        }
        assert(names_of(l.push(v)).no_duplicates());
    }
}

/// A list of distinct declared names is no longer than the declaration.
pub proof fn lemma_names_bound(l: Seq<String>, order: Seq<Seq<char>>)
    requires
        names_of(l).no_duplicates(),
        forall|k: int| 0 <= k < l.len() ==> order.contains(l[k]@),
    ensures
        l.len() <= order.len(),
{
    names_of(l).unique_seq_to_set();
    assert forall|x: Seq<char>| nset(l).contains(x) implies order.to_set().contains(x) by {
        lemma_nset_pick(l, x);
        let k = choose|k: int| 0 <= k < l.len() && l[k]@ == x;
        assert(order.contains(l[k]@));
    }
    vstd::seq_lib::seq_to_set_is_finite(order);
    vstd::set_lib::lemma_len_subset(nset(l), order.to_set());
    order.lemma_cardinality_of_set();
}

/// Whether a member of a string list equals the given string.
pub fn str_in(l: &Vec<String>, s: &String) -> (r: bool)
    ensures
        r == nset(l@).contains(s@),
{
    let mut i: usize = 0;
    while i < l.len()
        invariant
            0 <= i <= l@.len(),
            forall|k: int| 0 <= k < i ==> l@[k]@ != s@,
        decreases l@.len() - i,
    {
        if l[i] == *s {
            proof {
                lemma_nset_elem(l@, i as int);
            }
            return true;
        }
        i += 1;
    }
    proof {
        if nset(l@).contains(s@) {
            lemma_nset_pick(l@, s@);
        }
    }
    false
}

// ---------------------------------------------------------------------------
// Referenced names of a fragment (specification)
// ---------------------------------------------------------------------------

/// A path is bare when it has exactly one segment and that segment carries
/// no generic arguments; only such a path can reference a module generic.
pub open spec fn path_is_bare(ss: Seq<SegS>) -> bool {
    ss.len() == 1 && ss[0].args.len() == 0
}

/// Names referenced by a path standing in type or trait-bound position:
/// the bare name itself, if any, and everything inside the segments'
/// generic arguments.
pub open spec fn path_like_refs(ss: Seq<SegS>) -> Set<Seq<char>>
    decreases ss, ss.len() + 1,
{
    let bare: Set<Seq<char>> = if path_is_bare(ss) {
        set![ss[0].name]
    } else {
        Set::empty()
    };
    bare.union(segs_refs(ss, ss.len() as int))
}

pub open spec fn seg_refs(s: SegS) -> Set<Seq<char>>
    decreases s, 0int,
{
    args_refs(s.args, s.args.len() as int)
}

pub open spec fn segs_refs(l: Seq<SegS>, n: int) -> Set<Seq<char>>
    decreases l, n,
{
    if n <= 0 || n > l.len() {
        Set::empty()
    } else {
        segs_refs(l, n - 1).union(seg_refs(l[n - 1]))
    }
}

pub open spec fn arg_refs(a: ArgS) -> Set<Seq<char>>
    decreases a, 0int,
{
    match a {
        ArgS::Ty(t) => ty_refs(t),
        ArgS::Assoc { name, ty } => ty_refs(ty),
        ArgS::Lifetime(_) => Set::empty(),
    }
}

pub open spec fn args_refs(l: Seq<ArgS>, n: int) -> Set<Seq<char>>
    decreases l, n,
{
    if n <= 0 || n > l.len() {
        Set::empty()
    } else {
        args_refs(l, n - 1).union(arg_refs(l[n - 1]))
    }
}

pub open spec fn ty_refs(t: TyS) -> Set<Seq<char>>
    decreases t, 0int,
{
    match t {
        TyS::Path(ss) => path_like_refs(ss),
        TyS::Tuple(ts) => tys_refs(ts, ts.len() as int),
        TyS::Ref(b) => ty_refs(*b),
        TyS::Array(b) => ty_refs(*b),
        TyS::FnPtr { params, ret } => tys_refs(params, params.len() as int).union(
            match ret {
                Some(b) => ty_refs(*b),
                None => Set::empty(),
            },
        ),
        TyS::ImplTrait(bs) => bounds_refs(bs, bs.len() as int),
        TyS::DynTrait(bs) => bounds_refs(bs, bs.len() as int),
    }
}

pub open spec fn tys_refs(l: Seq<TyS>, n: int) -> Set<Seq<char>>
    decreases l, n,
{
    if n <= 0 || n > l.len() {
        Set::empty()
    } else {
        tys_refs(l, n - 1).union(ty_refs(l[n - 1]))
    }
}

pub open spec fn bound_refs(b: BoundS) -> Set<Seq<char>>
    decreases b, 0int,
{
    match b {
        BoundS::Trait(ss) => path_like_refs(ss),
        BoundS::Lifetime(_) => Set::empty(),
    }
}

pub open spec fn bounds_refs(l: Seq<BoundS>, n: int) -> Set<Seq<char>>
    decreases l, n,
{
    if n <= 0 || n > l.len() {
        Set::empty()
    } else {
        bounds_refs(l, n - 1).union(bound_refs(l[n - 1]))
    }
}

/// A type-kind parameter references its own identifier and everything in
/// its bounds; lifetime and const parameters reference nothing.
pub open spec fn param_refs(p: ParamS) -> Set<Seq<char>>
    decreases p, 0int,
{
    match p {
        ParamS::Ty { name, bounds } => set![name].union(bounds_refs(bounds, bounds.len() as int)),
        ParamS::Lifetime(_) => Set::empty(),
        ParamS::Const { name: _, ty: _ } => Set::empty(),
    }
}

pub open spec fn params_refs(l: Seq<ParamS>, n: int) -> Set<Seq<char>>
    decreases l, n,
{
    if n <= 0 || n > l.len() {
        Set::empty()
    } else {
        params_refs(l, n - 1).union(param_refs(l[n - 1]))
    }
}

pub open spec fn pred_refs(p: PredS) -> Set<Seq<char>>
    decreases p, 0int,
{
    ty_refs(p.subject).union(bounds_refs(p.bounds, p.bounds.len() as int))
}

pub open spec fn preds_refs(l: Seq<PredS>, n: int) -> Set<Seq<char>>
    decreases l, n,
{
    if n <= 0 || n > l.len() {
        Set::empty()
    } else {
        preds_refs(l, n - 1).union(pred_refs(l[n - 1]))
    }
}

/// Everything referenced anywhere in a generics list: the parameters, their
/// bounds, and the where clause.
pub open spec fn generics_refs(g: GenericsS) -> Set<Seq<char>>
    decreases g, 0int,
{
    params_refs(g.params, g.params.len() as int).union(preds_refs(g.preds, g.preds.len() as int))
}

// ---------------------------------------------------------------------------
// Executable search
// ---------------------------------------------------------------------------

pub fn seg_mentions(s: &Seg, name: &String) -> (r: bool)
    ensures
        r == seg_refs(abs_seg(*s)).contains(name@),
    decreases *s,
{
    proof {
        lemma_abs_args(s.args@, s.args@.len() as int);
    }
    args_mentions(&s.args, name)
}

pub fn segs_mentions(l: &Vec<Seg>, name: &String) -> (r: bool)
    ensures
        r == segs_refs(abs_segs(l@, l@.len() as int), l@.len() as int).contains(name@),
    decreases *l, 0int,
{
    let ghost al = abs_segs(l@, l@.len() as int);
    proof {
        lemma_abs_segs(l@, l@.len() as int);
    }
    let mut i: usize = 0;
    let mut r: bool = false;
    while i < l.len()
        invariant
            0 <= i <= l@.len(),
            al == abs_segs(l@, l@.len() as int),
            al.len() == l@.len(),
            forall|k: int| 0 <= k < l@.len() ==> al[k] == abs_seg(l@[k]),
            r == segs_refs(al, i as int).contains(name@),
        decreases l@.len() - i,
    {
        if seg_mentions(&l[i], name) {
            r = true;
        }
        i += 1;
    }
    r
}

pub fn path_like_mentions(l: &Vec<Seg>, name: &String) -> (r: bool)
    ensures
        r == path_like_refs(abs_segs(l@, l@.len() as int)).contains(name@),
    decreases *l, 1int,
{
    proof {
        lemma_abs_segs(l@, l@.len() as int);
    }
    let mut bare: bool = false;
    if l.len() == 1 {
        let s0 = &l[0];
        if s0.args.len() == 0 && s0.name == *name {
            bare = true;
        }
        proof {
            lemma_abs_args(s0.args@, s0.args@.len() as int);
        }
    }
    let deep = segs_mentions(l, name);
    bare || deep
}

pub fn arg_mentions(a: &Arg, name: &String) -> (r: bool)
    ensures
        r == arg_refs(abs_arg(*a)).contains(name@),
    decreases *a,
{
    match a {
        Arg::Ty(t) => ty_mentions(t, name),
        Arg::Assoc { name: _, ty } => ty_mentions(ty, name),
        Arg::Lifetime(_) => false,
    }
}

pub fn args_mentions(l: &Vec<Arg>, name: &String) -> (r: bool)
    ensures
        r == args_refs(abs_args(l@, l@.len() as int), l@.len() as int).contains(name@),
    decreases *l,
{
    let ghost al = abs_args(l@, l@.len() as int);
    proof {
        lemma_abs_args(l@, l@.len() as int);
    }
    let mut i: usize = 0;
    let mut r: bool = false;
    while i < l.len()
        invariant
            0 <= i <= l@.len(),
            al == abs_args(l@, l@.len() as int),
            al.len() == l@.len(),
            forall|k: int| 0 <= k < l@.len() ==> al[k] == abs_arg(l@[k]),
            r == args_refs(al, i as int).contains(name@),
        decreases l@.len() - i,
    {
        if arg_mentions(&l[i], name) {
            r = true;
        }
        i += 1;
    }
    r
}

pub fn ty_mentions(t: &Ty, name: &String) -> (r: bool)
    ensures
        r == ty_refs(abs_ty(*t)).contains(name@),
    decreases *t,
{
    match t {
        Ty::Path(segs) => path_like_mentions(segs, name),
        Ty::Tuple(ts) => {
            proof {
                lemma_abs_tys(ts@, ts@.len() as int);
            }
            tys_mentions(ts, name)
        },
        Ty::Ref(b) => ty_mentions(b, name),
        Ty::Array(b) => ty_mentions(b, name),
        Ty::FnPtr { params, ret } => {
            proof {
                lemma_abs_tys(params@, params@.len() as int);
            }
            let a = tys_mentions(params, name);
            let b = match ret {
                Some(bx) => ty_mentions(bx, name),
                None => false,
            };
            a || b
        },
        Ty::ImplTrait(bs) => {
            proof {
                lemma_abs_bounds(bs@, bs@.len() as int);
            }
            bounds_mentions(bs, name)
        },
        Ty::DynTrait(bs) => {
            proof {
                lemma_abs_bounds(bs@, bs@.len() as int);
            }
            bounds_mentions(bs, name)
        },
    }
}

pub fn tys_mentions(l: &Vec<Ty>, name: &String) -> (r: bool)
    ensures
        r == tys_refs(abs_tys(l@, l@.len() as int), l@.len() as int).contains(name@),
    decreases *l,
{
    let ghost al = abs_tys(l@, l@.len() as int);
    proof {
        lemma_abs_tys(l@, l@.len() as int);
    }
    let mut i: usize = 0;
    let mut r: bool = false;
    while i < l.len()
        invariant
            0 <= i <= l@.len(),
            al == abs_tys(l@, l@.len() as int),
            al.len() == l@.len(),
            forall|k: int| 0 <= k < l@.len() ==> al[k] == abs_ty(l@[k]),
            r == tys_refs(al, i as int).contains(name@),
        decreases l@.len() - i,
    {
        if ty_mentions(&l[i], name) {
            r = true;
        }
        i += 1;
    }
    r
}

pub fn bound_mentions(b: &Bound, name: &String) -> (r: bool)
    ensures
        r == bound_refs(abs_bound(*b)).contains(name@),
    decreases *b,
{
    match b {
        Bound::Trait(segs) => path_like_mentions(segs, name),
        Bound::Lifetime(_) => false,
    }
}

pub fn bounds_mentions(l: &Vec<Bound>, name: &String) -> (r: bool)
    ensures
        r == bounds_refs(abs_bounds(l@, l@.len() as int), l@.len() as int).contains(name@),
    decreases *l,
{
    let ghost al = abs_bounds(l@, l@.len() as int);
    proof {
        lemma_abs_bounds(l@, l@.len() as int);
    }
    let mut i: usize = 0;
    let mut r: bool = false;
    while i < l.len()
        invariant
            0 <= i <= l@.len(),
            al == abs_bounds(l@, l@.len() as int),
            al.len() == l@.len(),
            forall|k: int| 0 <= k < l@.len() ==> al[k] == abs_bound(l@[k]),
            r == bounds_refs(al, i as int).contains(name@),
        decreases l@.len() - i,
    {
        if bound_mentions(&l[i], name) {
            r = true;
        }
        i += 1;
    }
    r
}

pub fn param_mentions(p: &GenericParam, name: &String) -> (r: bool)
    ensures
        r == param_refs(abs_param(*p)).contains(name@),
    decreases *p,
{
    match p {
        GenericParam::Ty { name: pname, bounds } => {
            proof {
                lemma_abs_bounds(bounds@, bounds@.len() as int);
            }
            let own = *pname == *name;
            let deep = bounds_mentions(bounds, name);
            own || deep
        },
        GenericParam::Lifetime(_) => false,
        GenericParam::Const { name: _, ty: _ } => false,
    }
}

pub fn params_mentions(l: &Vec<GenericParam>, name: &String) -> (r: bool)
    ensures
        r == params_refs(abs_params(l@, l@.len() as int), l@.len() as int).contains(name@),
    decreases *l,
{
    let ghost al = abs_params(l@, l@.len() as int);
    proof {
        lemma_abs_params(l@, l@.len() as int);
    }
    let mut i: usize = 0;
    let mut r: bool = false;
    while i < l.len()
        invariant
            0 <= i <= l@.len(),
            al == abs_params(l@, l@.len() as int),
            al.len() == l@.len(),
            forall|k: int| 0 <= k < l@.len() ==> al[k] == abs_param(l@[k]),
            r == params_refs(al, i as int).contains(name@),
        decreases l@.len() - i,
    {
        if param_mentions(&l[i], name) {
            r = true;
        }
        i += 1;
    }
    r
}

pub fn pred_mentions(p: &Predicate, name: &String) -> (r: bool)
    ensures
        r == pred_refs(abs_pred(*p)).contains(name@),
    decreases *p,
{
    proof {
        lemma_abs_bounds(p.bounds@, p.bounds@.len() as int);
    }
    let a = ty_mentions(&p.subject, name);
    let b = bounds_mentions(&p.bounds, name);
    a || b
}

pub fn preds_mentions(l: &Vec<Predicate>, name: &String) -> (r: bool)
    ensures
        r == preds_refs(abs_preds(l@, l@.len() as int), l@.len() as int).contains(name@),
    decreases *l,
{
    let ghost al = abs_preds(l@, l@.len() as int);
    proof {
        lemma_abs_preds(l@, l@.len() as int);
    }
    let mut i: usize = 0;
    let mut r: bool = false;
    while i < l.len()
        invariant
            0 <= i <= l@.len(),
            al == abs_preds(l@, l@.len() as int),
            al.len() == l@.len(),
            forall|k: int| 0 <= k < l@.len() ==> al[k] == abs_pred(l@[k]),
            r == preds_refs(al, i as int).contains(name@),
        decreases l@.len() - i,
    {
        if pred_mentions(&l[i], name) {
            r = true;
        }
        i += 1;
    }
    r
}

pub fn generics_mentions(g: &Generics, name: &String) -> (r: bool)
    ensures
        r == generics_refs(abs_generics(*g)).contains(name@),
{
    proof {
        lemma_abs_params(g.params@, g.params@.len() as int);
        lemma_abs_preds(g.where_preds@, g.where_preds@.len() as int);
    }
    let a = params_mentions(&g.params, name);
    let b = preds_mentions(&g.where_preds, name);
    a || b
}

// ---------------------------------------------------------------------------
// The public analyzer entry points
// ---------------------------------------------------------------------------

/// The declared names that a fragment references: what each of the
/// `get_*_mod_generics` functions below returns, as a set.
pub open spec fn filtered_names(declared: Seq<String>, refs: Set<Seq<char>>) -> Set<Seq<char>> {
    nset(declared).intersect(refs)
}

/// The referenced names among the first `i` declared ones: what the
/// `get_*_mod_generics` loops have collected after `i` steps.
pub open spec fn sel_names(declared: Seq<String>, refs: Set<Seq<char>>, i: int) -> Set<Seq<char>> {
    Set::new(
        |x: Seq<char>| (exists|k: int| 0 <= k < i && declared[k]@ == x) && refs.contains(x),
    )
}

proof fn lemma_collect_init(declared: Seq<String>, refs: Set<Seq<char>>)
    ensures
        nset(Seq::<String>::empty()) == sel_names(declared, refs, 0),
{
    assert forall|x: Seq<char>| !nset(Seq::<String>::empty()).contains(x) by {
        if nset(Seq::<String>::empty()).contains(x) {
            lemma_nset_pick(Seq::<String>::empty(), x);
        }
    }
    assert(nset(Seq::<String>::empty()) =~= sel_names(declared, refs, 0));
}

proof fn lemma_collect_step(
    old_r: Seq<String>,
    new_r: Seq<String>,
    declared: Seq<String>,
    refs: Set<Seq<char>>,
    i: int,
)
    requires
        0 <= i < declared.len(),
        new_r == old_r.push(declared[i]),
        refs.contains(declared[i]@),
        nset(old_r) == sel_names(declared, refs, i),
    ensures
        nset(new_r) == sel_names(declared, refs, i + 1),
{
    assert forall|x: Seq<char>| nset(new_r).contains(x) implies sel_names(
        declared,
        refs,
        i + 1,
    ).contains(x) by {
        lemma_nset_pick(new_r, x);
        let j = choose|j: int| 0 <= j < new_r.len() && new_r[j]@ == x;
        if j < old_r.len() {
            lemma_nset_elem(old_r, j);
            assert(sel_names(declared, refs, i).contains(x));
            let k = choose|k: int| 0 <= k < i && declared[k]@ == x;
            assert(0 <= k < i + 1 && declared[k]@ == x);
        } else {
            assert(declared[i]@ == x);
        }
    }
    assert forall|x: Seq<char>| sel_names(declared, refs, i + 1).contains(x) implies nset(
        new_r,
    ).contains(x) by {
        let k = choose|k: int| 0 <= k < i + 1 && declared[k]@ == x;
        if k < i {
            assert(sel_names(declared, refs, i).contains(x));
            lemma_nset_pick(old_r, x);
            let j = choose|j: int| 0 <= j < old_r.len() && old_r[j]@ == x;
            assert(new_r[j]@ == x);
            lemma_nset_elem(new_r, j);
        } else {
            assert(new_r[old_r.len() as int]@ == x);
            lemma_nset_elem(new_r, old_r.len() as int);
        }
    }
    assert(nset(new_r) =~= sel_names(declared, refs, i + 1));
}

proof fn lemma_collect_skip(
    r: Seq<String>,
    declared: Seq<String>,
    refs: Set<Seq<char>>,
    i: int,
)
    requires
        0 <= i < declared.len(),
        !refs.contains(declared[i]@),
        nset(r) == sel_names(declared, refs, i),
    ensures
        nset(r) == sel_names(declared, refs, i + 1),
{
    assert forall|x: Seq<char>| sel_names(declared, refs, i + 1).contains(x) implies sel_names(
        declared,
        refs,
        i,
    ).contains(x) by {
        let k = choose|k: int| 0 <= k < i + 1 && declared[k]@ == x;
        assert(k != i);
        assert(0 <= k < i && declared[k]@ == x);
    }
    assert forall|x: Seq<char>| sel_names(declared, refs, i).contains(x) implies sel_names(
        declared,
        refs,
        i + 1,
    ).contains(x) by {
        let k = choose|k: int| 0 <= k < i && declared[k]@ == x;
        assert(0 <= k < i + 1 && declared[k]@ == x);
    }
    assert(sel_names(declared, refs, i) =~= sel_names(declared, refs, i + 1));
}

proof fn lemma_collect_done(r: Seq<String>, declared: Seq<String>, refs: Set<Seq<char>>)
    requires
        nset(r) == sel_names(declared, refs, declared.len() as int),
    ensures
        nset(r) == filtered_names(declared, refs),
{
    assert forall|x: Seq<char>| sel_names(declared, refs, declared.len() as int).contains(
        x,
    ) implies filtered_names(declared, refs).contains(x) by {
        let k = choose|k: int| 0 <= k < declared.len() && declared[k]@ == x;
        lemma_nset_elem(declared, k);
    }
    assert forall|x: Seq<char>| filtered_names(declared, refs).contains(x) implies sel_names(
        declared,
        refs,
        declared.len() as int,
    ).contains(x) by {
        lemma_nset_pick(declared, x);
    }
    assert(sel_names(declared, refs, declared.len() as int) =~= filtered_names(declared, refs));
}

/// The declared generics referenced inside a list of trait bounds.
pub fn get_bounds_mod_generics(generics: &Vec<String>, bounds: &Vec<Bound>) -> (r: Vec<String>)
    ensures
        nset(r@) == filtered_names(
            generics@,
            bounds_refs(abs_bounds(bounds@, bounds@.len() as int), bounds@.len() as int),
        ),
{
    let ghost refs = bounds_refs(abs_bounds(bounds@, bounds@.len() as int), bounds@.len() as int);
    let mut r: Vec<String> = Vec::new();
    proof {
        lemma_collect_init(generics@, refs);
    }
    let mut i: usize = 0;
    while i < generics.len()
        invariant
            0 <= i <= generics@.len(),
            refs == bounds_refs(abs_bounds(bounds@, bounds@.len() as int), bounds@.len() as int),
            nset(r@) == sel_names(generics@, refs, i as int),
        decreases generics@.len() - i,
    {
        let ghost old_r = r@;
        if bounds_mentions(bounds, &generics[i]) {
            r.push(generics[i].clone());
            proof {
                assert(r@ == old_r.push(generics@[i as int]));
                lemma_collect_step(old_r, r@, generics@, refs, i as int);
            }
        } else {
            proof {
                lemma_collect_skip(r@, generics@, refs, i as int);
            }
        }
        i += 1;
    }
    proof {
        lemma_collect_done(r@, generics@, refs);
    }
    r
}

/// The declared generics referenced anywhere in a generics list (its
/// parameters, their bounds, and its where clause).
pub fn get_generics_mod_generics(generics: &Vec<String>, ast: &Generics) -> (r: Vec<String>)
    ensures
        nset(r@) == filtered_names(generics@, generics_refs(abs_generics(*ast))),
{
    let ghost refs = generics_refs(abs_generics(*ast));
    let mut r: Vec<String> = Vec::new();
    proof {
        lemma_collect_init(generics@, refs);
    }
    let mut i: usize = 0;
    while i < generics.len()
        invariant
            0 <= i <= generics@.len(),
            refs == generics_refs(abs_generics(*ast)),
            nset(r@) == sel_names(generics@, refs, i as int),
        decreases generics@.len() - i,
    {
        let ghost old_r = r@;
        if generics_mentions(ast, &generics[i]) {
            r.push(generics[i].clone());
            proof {
                assert(r@ == old_r.push(generics@[i as int]));
                lemma_collect_step(old_r, r@, generics@, refs, i as int);
            }
        } else {
            proof {
                lemma_collect_skip(r@, generics@, refs, i as int);
            }
        }
        i += 1;
    }
    proof {
        lemma_collect_done(r@, generics@, refs);
    }
    r
}

/// The declared generics referenced inside a type.
pub fn get_type_mod_generics(generics: &Vec<String>, ty: &Ty) -> (r: Vec<String>)
    ensures
        nset(r@) == filtered_names(generics@, ty_refs(abs_ty(*ty))),
{
    let ghost refs = ty_refs(abs_ty(*ty));
    let mut r: Vec<String> = Vec::new();
    proof {
        lemma_collect_init(generics@, refs);
    }
    let mut i: usize = 0;
    while i < generics.len()
        invariant
            0 <= i <= generics@.len(),
            refs == ty_refs(abs_ty(*ty)),
            nset(r@) == sel_names(generics@, refs, i as int),
        decreases generics@.len() - i,
    {
        let ghost old_r = r@;
        if ty_mentions(ty, &generics[i]) {
            r.push(generics[i].clone());
            proof {
                assert(r@ == old_r.push(generics@[i as int]));
                lemma_collect_step(old_r, r@, generics@, refs, i as int);
            }
        } else {
            proof {
                lemma_collect_skip(r@, generics@, refs, i as int);
            }
        }
        i += 1;
    }
    proof {
        lemma_collect_done(r@, generics@, refs);
    }
    r
}

/// The declared generics referenced inside a path-argument list (used for
/// the final segment of an implemented trait's path).
pub fn get_path_arguments_mod_generics(generics: &Vec<String>, args: &Vec<Arg>) -> (r: Vec<String>)
    ensures
        nset(r@) == filtered_names(
            generics@,
            args_refs(abs_args(args@, args@.len() as int), args@.len() as int),
        ),
{
    let ghost refs = args_refs(abs_args(args@, args@.len() as int), args@.len() as int);
    let mut r: Vec<String> = Vec::new();
    proof {
        lemma_collect_init(generics@, refs);
    }
    let mut i: usize = 0;
    while i < generics.len()
        invariant
            0 <= i <= generics@.len(),
            refs == args_refs(abs_args(args@, args@.len() as int), args@.len() as int),
            nset(r@) == sel_names(generics@, refs, i as int),
        decreases generics@.len() - i,
    {
        let ghost old_r = r@;
        if args_mentions(args, &generics[i]) {
            r.push(generics[i].clone());
            proof {
                assert(r@ == old_r.push(generics@[i as int]));
                lemma_collect_step(old_r, r@, generics@, refs, i as int);
            }
        } else {
            proof {
                lemma_collect_skip(r@, generics@, refs, i as int);
            }
        }
        i += 1;
    }
    proof {
        lemma_collect_done(r@, generics@, refs);
    }
    r
}

/// The declared generics referenced inside a where-clause predicate.
pub fn get_predicate_mod_generics(generics: &Vec<String>, predicate: &Predicate) -> (r: Vec<String>)
    ensures
        nset(r@) == filtered_names(generics@, pred_refs(abs_pred(*predicate))),
{
    let ghost refs = pred_refs(abs_pred(*predicate));
    let mut r: Vec<String> = Vec::new();
    proof {
        lemma_collect_init(generics@, refs);
    }
    let mut i: usize = 0;
    while i < generics.len()
        invariant
            0 <= i <= generics@.len(),
            refs == pred_refs(abs_pred(*predicate)),
            nset(r@) == sel_names(generics@, refs, i as int),
        decreases generics@.len() - i,
    {
        let ghost old_r = r@;
        if pred_mentions(predicate, &generics[i]) {
            r.push(generics[i].clone());
            proof {
                assert(r@ == old_r.push(generics@[i as int]));
                lemma_collect_step(old_r, r@, generics@, refs, i as int);
            }
        } else {
            proof {
                lemma_collect_skip(r@, generics@, refs, i as int);
            }
        }
        i += 1;
    }
    proof {
        lemma_collect_done(r@, generics@, refs);
    }
    r
}

// ---------------------------------------------------------------------------
// Structural equality
// ---------------------------------------------------------------------------

pub fn eq_seg(a: &Seg, b: &Seg) -> (r: bool)
    ensures
        r == (abs_seg(*a) == abs_seg(*b)),
    decreases *a,
{
    proof {
        lemma_abs_args(a.args@, a.args@.len() as int);
        lemma_abs_args(b.args@, b.args@.len() as int);
    }
    let names_equal = a.name == b.name;
    if !names_equal {
        return false;
    }
    eq_args(&a.args, &b.args)
}

pub fn eq_segs(a: &Vec<Seg>, b: &Vec<Seg>) -> (r: bool)
    ensures
        r == (abs_segs(a@, a@.len() as int) == abs_segs(b@, b@.len() as int)),
    decreases *a,
{
    proof {
        lemma_abs_segs(a@, a@.len() as int);
        lemma_abs_segs(b@, b@.len() as int);
    }
    if a.len() != b.len() {
        return false;
    }
    let ghost aa = abs_segs(a@, a@.len() as int);
    let ghost ab = abs_segs(b@, b@.len() as int);
    let mut i: usize = 0;
    while i < a.len()
        invariant
            0 <= i <= a@.len(),
            a@.len() == b@.len(),
            aa == abs_segs(a@, a@.len() as int),
            ab == abs_segs(b@, b@.len() as int),
            aa.len() == a@.len(),
            ab.len() == b@.len(),
            forall|k: int| 0 <= k < a@.len() ==> aa[k] == abs_seg(a@[k]),
            forall|k: int| 0 <= k < b@.len() ==> ab[k] == abs_seg(b@[k]),
            forall|k: int| 0 <= k < i ==> aa[k] == ab[k],
        decreases a@.len() - i,
    {
        if !eq_seg(&a[i], &b[i]) {
            proof {
                assert(aa[i as int] == abs_seg(a@[i as int]));
                assert(ab[i as int] == abs_seg(b@[i as int]));
                assert(aa[i as int] != ab[i as int]);
                assert(aa != ab);
            }
            return false;
        }
        i += 1;
    }
    proof {
        assert(aa =~= ab);
    }
    true
}

pub fn eq_arg(a: &Arg, b: &Arg) -> (r: bool)
    ensures
        r == (abs_arg(*a) == abs_arg(*b)),
    decreases *a,
{
    match (a, b) {
        (Arg::Ty(t1), Arg::Ty(t2)) => eq_ty(t1, t2),
        (Arg::Assoc { name: n1, ty: t1 }, Arg::Assoc { name: n2, ty: t2 }) => {
            let names_equal = *n1 == *n2;
            if !names_equal {
                return false;
            }
            eq_ty(t1, t2)
        },
        (Arg::Lifetime(n1), Arg::Lifetime(n2)) => *n1 == *n2,
        _ => false,
    }
}

pub fn eq_args(a: &Vec<Arg>, b: &Vec<Arg>) -> (r: bool)
    ensures
        r == (abs_args(a@, a@.len() as int) == abs_args(b@, b@.len() as int)),
    decreases *a,
{
    proof {
        lemma_abs_args(a@, a@.len() as int);
        lemma_abs_args(b@, b@.len() as int);
    }
    if a.len() != b.len() {
        return false;
    }
    let ghost aa = abs_args(a@, a@.len() as int);
    let ghost ab = abs_args(b@, b@.len() as int);
    let mut i: usize = 0;
    while i < a.len()
        invariant
            0 <= i <= a@.len(),
            a@.len() == b@.len(),
            aa == abs_args(a@, a@.len() as int),
            ab == abs_args(b@, b@.len() as int),
            aa.len() == a@.len(),
            ab.len() == b@.len(),
            forall|k: int| 0 <= k < a@.len() ==> aa[k] == abs_arg(a@[k]),
            forall|k: int| 0 <= k < b@.len() ==> ab[k] == abs_arg(b@[k]),
            forall|k: int| 0 <= k < i ==> aa[k] == ab[k],
        decreases a@.len() - i,
    {
        if !eq_arg(&a[i], &b[i]) {
            proof {
                assert(aa[i as int] == abs_arg(a@[i as int]));
                assert(ab[i as int] == abs_arg(b@[i as int]));
                assert(aa != ab);
            }
            return false;
        }
        i += 1;
    }
    proof {
        assert(aa =~= ab);
    }
    true
}

pub fn eq_ty(a: &Ty, b: &Ty) -> (r: bool)
    ensures
        r == (abs_ty(*a) == abs_ty(*b)),
    decreases *a,
{
    match (a, b) {
        (Ty::Path(s1), Ty::Path(s2)) => eq_segs(s1, s2),
        (Ty::Tuple(t1), Ty::Tuple(t2)) => eq_tys(t1, t2),
        (Ty::Ref(b1), Ty::Ref(b2)) => eq_ty(b1, b2),
        (Ty::Array(b1), Ty::Array(b2)) => eq_ty(b1, b2),
        (Ty::FnPtr { params: p1, ret: r1 }, Ty::FnPtr { params: p2, ret: r2 }) => {
            let params_equal = eq_tys(p1, p2);
            if !params_equal {
                return false;
            }
            match (r1, r2) {
                (Some(x1), Some(x2)) => eq_ty(x1, x2),
                (None, None) => true,
                _ => false,
            }
        },
        (Ty::ImplTrait(b1), Ty::ImplTrait(b2)) => eq_bounds(b1, b2),
        (Ty::DynTrait(b1), Ty::DynTrait(b2)) => eq_bounds(b1, b2),
        _ => false,
    }
}

pub fn eq_tys(a: &Vec<Ty>, b: &Vec<Ty>) -> (r: bool)
    ensures
        r == (abs_tys(a@, a@.len() as int) == abs_tys(b@, b@.len() as int)),
    decreases *a,
{
    proof {
        lemma_abs_tys(a@, a@.len() as int);
        lemma_abs_tys(b@, b@.len() as int);
    }
    if a.len() != b.len() {
        return false;
    }
    let ghost aa = abs_tys(a@, a@.len() as int);
    let ghost ab = abs_tys(b@, b@.len() as int);
    let mut i: usize = 0;
    while i < a.len()
        invariant
            0 <= i <= a@.len(),
            a@.len() == b@.len(),
            aa == abs_tys(a@, a@.len() as int),
            ab == abs_tys(b@, b@.len() as int),
            aa.len() == a@.len(),
            ab.len() == b@.len(),
            forall|k: int| 0 <= k < a@.len() ==> aa[k] == abs_ty(a@[k]),
            forall|k: int| 0 <= k < b@.len() ==> ab[k] == abs_ty(b@[k]),
            forall|k: int| 0 <= k < i ==> aa[k] == ab[k],
        decreases a@.len() - i,
    {
        if !eq_ty(&a[i], &b[i]) {
            proof {
                assert(aa[i as int] == abs_ty(a@[i as int]));
                assert(ab[i as int] == abs_ty(b@[i as int]));
                assert(aa != ab);
            }
            return false;
        }
        i += 1;
    }
    proof {
        assert(aa =~= ab);
    }
    true
}

pub fn eq_bounds(a: &Vec<Bound>, b: &Vec<Bound>) -> (r: bool)
    ensures
        r == (abs_bounds(a@, a@.len() as int) == abs_bounds(b@, b@.len() as int)),
    decreases *a,
{
    proof {
        lemma_abs_bounds(a@, a@.len() as int);
        lemma_abs_bounds(b@, b@.len() as int);
    }
    if a.len() != b.len() {
        return false;
    }
    let ghost aa = abs_bounds(a@, a@.len() as int);
    let ghost ab = abs_bounds(b@, b@.len() as int);
    let mut i: usize = 0;
    while i < a.len()
        invariant
            0 <= i <= a@.len(),
            a@.len() == b@.len(),
            aa == abs_bounds(a@, a@.len() as int),
            ab == abs_bounds(b@, b@.len() as int),
            aa.len() == a@.len(),
            ab.len() == b@.len(),
            forall|k: int| 0 <= k < a@.len() ==> aa[k] == abs_bound(a@[k]),
            forall|k: int| 0 <= k < b@.len() ==> ab[k] == abs_bound(b@[k]),
            forall|k: int| 0 <= k < i ==> aa[k] == ab[k],
        decreases a@.len() - i,
    {
        if !compare_bounds(&a[i], &b[i]) {
            proof {
                assert(aa[i as int] == abs_bound(a@[i as int]));
                assert(ab[i as int] == abs_bound(b@[i as int]));
                assert(aa != ab);
            }
            return false;
        }
        i += 1;
    }
    proof {
        assert(aa =~= ab);
    }
    true
}

/// Whether two bounds are the same constraint. The comparison is
/// structural: two bounds written differently but meaning the same
/// constraint (an aliased path, say) count as different.
pub fn compare_bounds(a: &Bound, b: &Bound) -> (r: bool)
    ensures
        r == (abs_bound(*a) == abs_bound(*b)),
    decreases *a,
{
    match (a, b) {
        (Bound::Trait(s1), Bound::Trait(s2)) => eq_segs(s1, s2),
        (Bound::Lifetime(n1), Bound::Lifetime(n2)) => *n1 == *n2,
        _ => false,
    }
}

/// Whether two where-clause predicates are structurally the same.
pub fn compare_predicates(a: &Predicate, b: &Predicate) -> (r: bool)
    ensures
        r == (abs_pred(*a) == abs_pred(*b)),
{
    proof {
        lemma_abs_bounds(a.bounds@, a.bounds@.len() as int);
        lemma_abs_bounds(b.bounds@, b.bounds@.len() as int);
    }
    let subjects_equal = eq_ty(&a.subject, &b.subject);
    if !subjects_equal {
        return false;
    }
    eq_bounds(&a.bounds, &b.bounds)
}

} // verus!
