//! The structured tree that the rewriter works on: types, bounds, generic
//! parameter lists, where-clause predicates, and module items.
//!
//! Each executable node kind has a mathematical twin (`TyS`, `BoundS`, ...)
//! built from `Seq` and `Seq<char>`; `abs_*` functions map the executable
//! tree onto it, and all contracts are stated over the twin.
use vstd::prelude::*;

verus! {

broadcast use
    vstd::seq::axiom_seq_index_decreases,
    vstd::std_specs::vec::axiom_vec_index_decreases,
    vstd::std_specs::vec::axiom_vec_decreases_to_view;

// ---------------------------------------------------------------------------
// Executable tree
// ---------------------------------------------------------------------------

/// One segment of a (possibly qualified) path, with its generic arguments.
pub struct Seg {
    pub name: String,
    pub args: Vec<Arg>,
}

/// A generic argument of a path segment.
pub enum Arg {
    /// A type argument.
    Ty(Ty),
    /// An associated-type binding `name = ty`.
    Assoc { name: String, ty: Ty },
    /// A lifetime argument.
    Lifetime(String),
}

/// A type, covering every position a module generic can occur in.
pub enum Ty {
    /// A path such as `T`, `Vec<T>` or `a::b::C`.
    Path(Vec<Seg>),
    /// A tuple type.
    Tuple(Vec<Ty>),
    /// A reference type `&T`.
    Ref(Box<Ty>),
    /// An array or slice type, kept as its element type.
    Array(Box<Ty>),
    /// A function-pointer type `fn(..) -> ..`.
    FnPtr { params: Vec<Ty>, ret: Option<Box<Ty>> },
    /// An `impl Trait` type.
    ImplTrait(Vec<Bound>),
    /// A `dyn Trait` type.
    DynTrait(Vec<Bound>),
}

/// A bound in a bound list: a trait path or a lifetime.
pub enum Bound {
    Trait(Vec<Seg>),
    Lifetime(String),
}

/// A declared generic parameter.
pub enum GenericParam {
    Ty { name: String, bounds: Vec<Bound> },
    Lifetime(String),
    Const { name: String, ty: Ty },
}

/// A where-clause predicate: a subject type and the bounds put on it.
pub struct Predicate {
    pub subject: Ty,
    pub bounds: Vec<Bound>,
}

/// A generic-parameter list together with its where clause.
pub struct Generics {
    pub params: Vec<GenericParam>,
    pub where_preds: Vec<Predicate>,
}

/// A function signature: its generics and the types it mentions.
pub struct Signature {
    pub generics: Generics,
    pub inputs: Vec<Ty>,
    pub output: Option<Ty>,
}

/// An item of the module body.
pub enum Item {
    Function { sig: Signature },
    Trait { generics: Generics, items: Vec<Item> },
    Impl { generics: Generics, trait_path: Option<Vec<Seg>>, self_ty: Ty, items: Vec<Item> },
    Other,
}

/// The module-shaped container handed to the rewriter; a bodyless module
/// has `content == None` and is rejected.
pub struct Module {
    pub ident: String,
    pub content: Option<Vec<Item>>,
}

// ---------------------------------------------------------------------------
// Mathematical twin
// ---------------------------------------------------------------------------

#[verifier::ext_equal]
pub struct SegS {
    pub name: Seq<char>,
    pub args: Seq<ArgS>,
}

#[verifier::ext_equal]
pub enum ArgS {
    Ty(TyS),
    Assoc { name: Seq<char>, ty: TyS },
    Lifetime(Seq<char>),
}

#[verifier::ext_equal]
pub enum TyS {
    Path(Seq<SegS>),
    Tuple(Seq<TyS>),
    Ref(Box<TyS>),
    Array(Box<TyS>),
    FnPtr { params: Seq<TyS>, ret: Option<Box<TyS>> },
    ImplTrait(Seq<BoundS>),
    DynTrait(Seq<BoundS>),
}

#[verifier::ext_equal]
pub enum BoundS {
    Trait(Seq<SegS>),
    Lifetime(Seq<char>),
}

#[verifier::ext_equal]
pub enum ParamS {
    Ty { name: Seq<char>, bounds: Seq<BoundS> },
    Lifetime(Seq<char>),
    Const { name: Seq<char>, ty: TyS },
}

#[verifier::ext_equal]
pub struct PredS {
    pub subject: TyS,
    pub bounds: Seq<BoundS>,
}

#[verifier::ext_equal]
pub struct GenericsS {
    pub params: Seq<ParamS>,
    pub preds: Seq<PredS>,
}

#[verifier::ext_equal]
pub struct SigS {
    pub generics: GenericsS,
    pub inputs: Seq<TyS>,
    pub output: Option<TyS>,
}

#[verifier::ext_equal]
pub enum ItemS {
    Function { sig: SigS },
    Trait { generics: GenericsS, items: Seq<ItemS> },
    Impl { generics: GenericsS, trait_path: Option<Seq<SegS>>, self_ty: TyS, items: Seq<ItemS> },
    Other,
}

// ---------------------------------------------------------------------------
// Abstraction functions
// ---------------------------------------------------------------------------

pub open spec fn abs_seg(s: Seg) -> SegS
    decreases s, 0int,
{
    SegS { name: s.name@, args: abs_args(s.args@, s.args@.len() as int) }
}

pub open spec fn abs_segs(l: Seq<Seg>, n: int) -> Seq<SegS>
    decreases l, n,
{
    if n <= 0 || n > l.len() {
        Seq::empty()
    } else {
        abs_segs(l, n - 1).push(abs_seg(l[n - 1]))
    }
}

pub open spec fn abs_arg(a: Arg) -> ArgS
    decreases a, 0int,
{
    match a {
        Arg::Ty(t) => ArgS::Ty(abs_ty(t)),
        Arg::Assoc { name, ty } => ArgS::Assoc { name: name@, ty: abs_ty(ty) },
        Arg::Lifetime(n) => ArgS::Lifetime(n@),
    }
}

pub open spec fn abs_args(l: Seq<Arg>, n: int) -> Seq<ArgS>
    decreases l, n,
{
    if n <= 0 || n > l.len() {
        Seq::empty()
    } else {
        abs_args(l, n - 1).push(abs_arg(l[n - 1]))
    }
}

pub open spec fn abs_ty(t: Ty) -> TyS
    decreases t, 0int,
{
    match t {
        Ty::Path(segs) => TyS::Path(abs_segs(segs@, segs@.len() as int)),
        Ty::Tuple(ts) => TyS::Tuple(abs_tys(ts@, ts@.len() as int)),
        Ty::Ref(b) => TyS::Ref(Box::new(abs_ty(*b))),
        Ty::Array(b) => TyS::Array(Box::new(abs_ty(*b))),
        Ty::FnPtr { params, ret } => TyS::FnPtr {
            params: abs_tys(params@, params@.len() as int),
            ret: match ret {
                Some(b) => Some(Box::new(abs_ty(*b))),
                None => None,
            },
        },
        Ty::ImplTrait(bs) => TyS::ImplTrait(abs_bounds(bs@, bs@.len() as int)),
        Ty::DynTrait(bs) => TyS::DynTrait(abs_bounds(bs@, bs@.len() as int)),
    }
}

pub open spec fn abs_tys(l: Seq<Ty>, n: int) -> Seq<TyS>
    decreases l, n,
{
    if n <= 0 || n > l.len() {
        Seq::empty()
    } else {
        abs_tys(l, n - 1).push(abs_ty(l[n - 1]))
    }
}

pub open spec fn abs_bound(b: Bound) -> BoundS
    decreases b, 0int,
{
    match b {
        Bound::Trait(segs) => BoundS::Trait(abs_segs(segs@, segs@.len() as int)),
        Bound::Lifetime(n) => BoundS::Lifetime(n@),
    }
}

pub open spec fn abs_bounds(l: Seq<Bound>, n: int) -> Seq<BoundS>
    decreases l, n,
{
    if n <= 0 || n > l.len() {
        Seq::empty()
    } else {
        abs_bounds(l, n - 1).push(abs_bound(l[n - 1]))
    }
}

pub open spec fn abs_param(p: GenericParam) -> ParamS
    decreases p, 0int,
{
    match p {
        GenericParam::Ty { name, bounds } => ParamS::Ty {
            name: name@,
            bounds: abs_bounds(bounds@, bounds@.len() as int),
        },
        GenericParam::Lifetime(n) => ParamS::Lifetime(n@),
        GenericParam::Const { name, ty } => ParamS::Const { name: name@, ty: abs_ty(ty) },
    }
}

pub open spec fn abs_params(l: Seq<GenericParam>, n: int) -> Seq<ParamS>
    decreases l, n,
{
    if n <= 0 || n > l.len() {
        Seq::empty()
    } else {
        abs_params(l, n - 1).push(abs_param(l[n - 1]))
    }
}

pub open spec fn abs_pred(p: Predicate) -> PredS
    decreases p, 0int,
{
    PredS { subject: abs_ty(p.subject), bounds: abs_bounds(p.bounds@, p.bounds@.len() as int) }
}

pub open spec fn abs_preds(l: Seq<Predicate>, n: int) -> Seq<PredS>
    decreases l, n,
{
    if n <= 0 || n > l.len() {
        Seq::empty()
    } else {
        abs_preds(l, n - 1).push(abs_pred(l[n - 1]))
    }
}

pub open spec fn abs_generics(g: Generics) -> GenericsS
    decreases g, 0int,
{
    GenericsS {
        params: abs_params(g.params@, g.params@.len() as int),
        preds: abs_preds(g.where_preds@, g.where_preds@.len() as int),
    }
}

pub open spec fn abs_sig(s: Signature) -> SigS
    decreases s, 0int,
{
    SigS {
        generics: abs_generics(s.generics),
        inputs: abs_tys(s.inputs@, s.inputs@.len() as int),
        output: match s.output {
            Some(t) => Some(abs_ty(t)),
            None => None,
        },
    }
}

pub open spec fn abs_item(i: Item) -> ItemS
    decreases i, 0int,
{
    match i {
        Item::Function { sig } => ItemS::Function { sig: abs_sig(sig) },
        Item::Trait { generics, items } => ItemS::Trait {
            generics: abs_generics(generics),
            items: abs_items(items@, items@.len() as int),
        },
        Item::Impl { generics, trait_path, self_ty, items } => ItemS::Impl {
            generics: abs_generics(generics),
            trait_path: match trait_path {
                Some(p) => Some(abs_segs(p@, p@.len() as int)),
                None => None,
            },
            self_ty: abs_ty(self_ty),
            items: abs_items(items@, items@.len() as int),
        },
        Item::Other => ItemS::Other,
    }
}

pub open spec fn abs_items(l: Seq<Item>, n: int) -> Seq<ItemS>
    decreases l, n,
{
    if n <= 0 || n > l.len() {
        Seq::empty()
    } else {
        abs_items(l, n - 1).push(abs_item(l[n - 1]))
    }
}

// ---------------------------------------------------------------------------
// Structural copies
// ---------------------------------------------------------------------------

pub fn clone_seg(s: &Seg) -> (r: Seg)
    ensures
        abs_seg(r) == abs_seg(*s),
    decreases *s,
{
    let r = Seg { name: s.name.clone(), args: clone_args(&s.args) };
    proof {
        lemma_abs_args(s.args@, s.args@.len() as int);
        lemma_abs_args(r.args@, r.args@.len() as int);
        assert(abs_args(r.args@, r.args@.len() as int) =~= abs_args(
            s.args@,
            s.args@.len() as int,
        ));
    }
    r
}

pub fn clone_segs(l: &Vec<Seg>) -> (r: Vec<Seg>)
    ensures
        r@.len() == l@.len(),
        forall|k: int| 0 <= k < l@.len() ==> abs_seg(r@[k]) == abs_seg(l@[k]),
        abs_segs(r@, r@.len() as int) == abs_segs(l@, l@.len() as int),
    decreases *l,
{
    let mut r: Vec<Seg> = Vec::new();
    let mut i: usize = 0;
    while i < l.len()
        invariant
            0 <= i <= l@.len(),
            r@.len() == i,
            forall|k: int| 0 <= k < i ==> abs_seg(r@[k]) == abs_seg(l@[k]),
        decreases l@.len() - i,
    {
        r.push(clone_seg(&l[i]));
        i += 1;
    }
    proof {
        lemma_abs_segs(l@, l@.len() as int);
        lemma_abs_segs(r@, r@.len() as int);
        assert(abs_segs(r@, r@.len() as int) =~= abs_segs(l@, l@.len() as int));
    }
    r
}

pub fn clone_arg(a: &Arg) -> (r: Arg)
    ensures
        abs_arg(r) == abs_arg(*a),
    decreases *a,
{
    match a {
        Arg::Ty(t) => Arg::Ty(clone_ty(t)),
        Arg::Assoc { name, ty } => Arg::Assoc { name: name.clone(), ty: clone_ty(ty) },
        Arg::Lifetime(n) => Arg::Lifetime(n.clone()),
    }
}

pub fn clone_args(l: &Vec<Arg>) -> (r: Vec<Arg>)
    ensures
        r@.len() == l@.len(),
        forall|k: int| 0 <= k < l@.len() ==> abs_arg(r@[k]) == abs_arg(l@[k]),
        abs_args(r@, r@.len() as int) == abs_args(l@, l@.len() as int),
    decreases *l,
{
    let mut r: Vec<Arg> = Vec::new();
    let mut i: usize = 0;
    while i < l.len()
        invariant
            0 <= i <= l@.len(),
            r@.len() == i,
            forall|k: int| 0 <= k < i ==> abs_arg(r@[k]) == abs_arg(l@[k]),
        decreases l@.len() - i,
    {
        r.push(clone_arg(&l[i]));
        i += 1;
    }
    proof {
        lemma_abs_args(l@, l@.len() as int);
        lemma_abs_args(r@, r@.len() as int);
        assert(abs_args(r@, r@.len() as int) =~= abs_args(l@, l@.len() as int));
    }
    r
}

pub fn clone_ty(t: &Ty) -> (r: Ty)
    ensures
        abs_ty(r) == abs_ty(*t),
    decreases *t,
{
    match t {
        Ty::Path(segs) => Ty::Path(clone_segs(segs)),
        Ty::Tuple(ts) => {
            let r = Ty::Tuple(clone_tys(ts));
            r
        },
        Ty::Ref(b) => Ty::Ref(Box::new(clone_ty(b))),
        Ty::Array(b) => Ty::Array(Box::new(clone_ty(b))),
        Ty::FnPtr { params, ret } => {
            let new_ret = match ret {
                Some(bx) => Some(Box::new(clone_ty(bx))),
                None => None,
            };
            Ty::FnPtr { params: clone_tys(params), ret: new_ret }
        },
        Ty::ImplTrait(bs) => Ty::ImplTrait(clone_bounds(bs)),
        Ty::DynTrait(bs) => Ty::DynTrait(clone_bounds(bs)),
    }
}

pub fn clone_tys(l: &Vec<Ty>) -> (r: Vec<Ty>)
    ensures
        r@.len() == l@.len(),
        forall|k: int| 0 <= k < l@.len() ==> abs_ty(r@[k]) == abs_ty(l@[k]),
        abs_tys(r@, r@.len() as int) == abs_tys(l@, l@.len() as int),
    decreases *l,
{
    let mut r: Vec<Ty> = Vec::new();
    let mut i: usize = 0;
    while i < l.len()
        invariant
            0 <= i <= l@.len(),
            r@.len() == i,
            forall|k: int| 0 <= k < i ==> abs_ty(r@[k]) == abs_ty(l@[k]),
        decreases l@.len() - i,
    {
        r.push(clone_ty(&l[i]));
        i += 1;
    }
    proof {
        lemma_abs_tys(l@, l@.len() as int);
        lemma_abs_tys(r@, r@.len() as int);
        assert(abs_tys(r@, r@.len() as int) =~= abs_tys(l@, l@.len() as int));
    }
    r
}

pub fn clone_bound(b: &Bound) -> (r: Bound)
    ensures
        abs_bound(r) == abs_bound(*b),
    decreases *b,
{
    match b {
        Bound::Trait(segs) => Bound::Trait(clone_segs(segs)),
        Bound::Lifetime(n) => Bound::Lifetime(n.clone()),
    }
}

pub fn clone_bounds(l: &Vec<Bound>) -> (r: Vec<Bound>)
    ensures
        r@.len() == l@.len(),
        forall|k: int| 0 <= k < l@.len() ==> abs_bound(r@[k]) == abs_bound(l@[k]),
        abs_bounds(r@, r@.len() as int) == abs_bounds(l@, l@.len() as int),
    decreases *l,
{
    let mut r: Vec<Bound> = Vec::new();
    let mut i: usize = 0;
    while i < l.len()
        invariant
            0 <= i <= l@.len(),
            r@.len() == i,
            forall|k: int| 0 <= k < i ==> abs_bound(r@[k]) == abs_bound(l@[k]),
        decreases l@.len() - i,
    {
        r.push(clone_bound(&l[i]));
        i += 1;
    }
    proof {
        lemma_abs_bounds(l@, l@.len() as int);
        lemma_abs_bounds(r@, r@.len() as int);
        assert(abs_bounds(r@, r@.len() as int) =~= abs_bounds(l@, l@.len() as int));
    }
    r
}

pub fn clone_predicate(p: &Predicate) -> (r: Predicate)
    ensures
        abs_pred(r) == abs_pred(*p),
{
    let r = Predicate { subject: clone_ty(&p.subject), bounds: clone_bounds(&p.bounds) };
    proof {
        lemma_abs_bounds(p.bounds@, p.bounds@.len() as int);
        lemma_abs_bounds(r.bounds@, r.bounds@.len() as int);
    }
    r
}

pub fn clone_param(p: &GenericParam) -> (r: GenericParam)
    ensures
        abs_param(r) == abs_param(*p),
{
    match p {
        GenericParam::Ty { name, bounds } => GenericParam::Ty {
            name: name.clone(),
            bounds: clone_bounds(bounds),
        },
        GenericParam::Lifetime(n) => GenericParam::Lifetime(n.clone()),
        GenericParam::Const { name, ty } => GenericParam::Const {
            name: name.clone(),
            ty: clone_ty(ty),
        },
    }
}

pub fn clone_generics(g: &Generics) -> (r: Generics)
    ensures
        abs_generics(r) == abs_generics(*g),
{
    let mut params: Vec<GenericParam> = Vec::new();
    let mut i: usize = 0;
    while i < g.params.len()
        invariant
            0 <= i <= g.params@.len(),
            params@.len() == i,
            forall|k: int| 0 <= k < i ==> abs_param(#[trigger] params@[k]) == abs_param(
                g.params@[k],
            ),
        decreases g.params@.len() - i,
    {
        params.push(clone_param(&g.params[i]));
        i += 1;
    }
    let mut where_preds: Vec<Predicate> = Vec::new();
    let mut j: usize = 0;
    while j < g.where_preds.len()
        invariant
            0 <= j <= g.where_preds@.len(),
            where_preds@.len() == j,
            forall|k: int| 0 <= k < j ==> abs_pred(#[trigger] where_preds@[k]) == abs_pred(
                g.where_preds@[k],
            ),
        decreases g.where_preds@.len() - j,
    {
        where_preds.push(clone_predicate(&g.where_preds[j]));
        j += 1;
    }
    let r = Generics { params, where_preds };
    proof {
        lemma_abs_params(g.params@, g.params@.len() as int);
        lemma_abs_params(r.params@, r.params@.len() as int);
        lemma_abs_preds(g.where_preds@, g.where_preds@.len() as int);
        lemma_abs_preds(r.where_preds@, r.where_preds@.len() as int);
        assert(abs_params(r.params@, r.params@.len() as int) =~= abs_params(
            g.params@,
            g.params@.len() as int,
        ));
        assert(abs_preds(r.where_preds@, r.where_preds@.len() as int) =~= abs_preds(
            g.where_preds@,
            g.where_preds@.len() as int,
        ));
    }
    r
}

pub fn clone_signature(s: &Signature) -> (r: Signature)
    ensures
        abs_sig(r) == abs_sig(*s),
{
    let output = match &s.output {
        Some(t) => Some(clone_ty(t)),
        None => None,
    };
    let r = Signature {
        generics: clone_generics(&s.generics),
        inputs: clone_tys(&s.inputs),
        output,
    };
    proof {
        lemma_abs_tys(s.inputs@, s.inputs@.len() as int);
        lemma_abs_tys(r.inputs@, r.inputs@.len() as int);
        assert(abs_tys(r.inputs@, r.inputs@.len() as int) =~= abs_tys(
            s.inputs@,
            s.inputs@.len() as int,
        ));
    }
    r
}

// ---------------------------------------------------------------------------
// Pointwise shape of the list abstractions
// ---------------------------------------------------------------------------

pub proof fn lemma_abs_segs(l: Seq<Seg>, n: int)
    requires
        0 <= n <= l.len(),
    ensures
        abs_segs(l, n).len() == n,
        forall|k: int| 0 <= k < n ==> abs_segs(l, n)[k] == abs_seg(l[k]),
    decreases n,
{
    if n > 0 {
        lemma_abs_segs(l, n - 1);
    }
}

pub proof fn lemma_abs_args(l: Seq<Arg>, n: int)
    requires
        0 <= n <= l.len(),
    ensures
        abs_args(l, n).len() == n,
        forall|k: int| 0 <= k < n ==> abs_args(l, n)[k] == abs_arg(l[k]),
    decreases n,
{
    if n > 0 {
        lemma_abs_args(l, n - 1);
    }
}

pub proof fn lemma_abs_tys(l: Seq<Ty>, n: int)
    requires
        0 <= n <= l.len(),
    ensures
        abs_tys(l, n).len() == n,
        forall|k: int| 0 <= k < n ==> abs_tys(l, n)[k] == abs_ty(l[k]),
    decreases n,
{
    if n > 0 {
        lemma_abs_tys(l, n - 1);
    }
}

pub proof fn lemma_abs_bounds(l: Seq<Bound>, n: int)
    requires
        0 <= n <= l.len(),
    ensures
        abs_bounds(l, n).len() == n,
        forall|k: int| 0 <= k < n ==> abs_bounds(l, n)[k] == abs_bound(l[k]),
    decreases n,
{
    if n > 0 {
        lemma_abs_bounds(l, n - 1);
    }
}

pub proof fn lemma_abs_params(l: Seq<GenericParam>, n: int)
    requires
        0 <= n <= l.len(),
    ensures
        abs_params(l, n).len() == n,
        forall|k: int| 0 <= k < n ==> abs_params(l, n)[k] == abs_param(l[k]),
    decreases n,
{
    if n > 0 {
        lemma_abs_params(l, n - 1);
    }
}

pub proof fn lemma_abs_preds(l: Seq<Predicate>, n: int)
    requires
        0 <= n <= l.len(),
    ensures
        abs_preds(l, n).len() == n,
        forall|k: int| 0 <= k < n ==> abs_preds(l, n)[k] == abs_pred(l[k]),
    decreases n,
{
    if n > 0 {
        lemma_abs_preds(l, n - 1);
    }
}

pub proof fn lemma_abs_items(l: Seq<Item>, n: int)
    requires
        0 <= n <= l.len(),
    ensures
        abs_items(l, n).len() == n,
        forall|k: int| 0 <= k < n ==> abs_items(l, n)[k] == abs_item(l[k]),
    decreases n,
{
    if n > 0 {
        lemma_abs_items(l, n - 1);
    }
}

} // verus!
