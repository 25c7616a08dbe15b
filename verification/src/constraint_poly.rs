//! Constraint polynomial construction and the polynomial degree of
//! expression trees.
use vstd::prelude::*;
use crate::expression::{
    arena_view, canon_rank, child_refers_to, child_well_shaped, exp_target, lemma_children_view, lemma_child_refs, lemma_child_shaped,
    ranked, refers_to, refs_below, arena_wf, inline_wf, well_shaped, BoundaryKind, ChildView,
    ExprChild, ExprOp, ExprView, Expression,
};
use crate::helpers::{
    add_info_expression_inline, arena_known, arena_sane, entry_shape, exp_dim, get_exp_dim, keeps_annotations, kept,
    lemma_sane_arena_defined, lemma_node_pointwise, tree_known, tree_sane, info_result, node_shape, child_shape,
    inline_of, lemma_pair_facts, lemma_keeps_refl, lemma_keeps_push, lemma_keeps_trans, bin_result, rewritten_op,
    resolve_view, is_zero_number,
};
use crate::pilout_info::{ConstraintInfo, SymType, SymbolInfo, FIELD_EXTENSION};

verus! {

/// Degree of a child.
pub open spec fn deg_child(exprs: Seq<ExprView>, rank: Seq<nat>, im: Seq<usize>, c: ChildView, bound: nat) -> int
    decreases bound, c,
{
    match c {
        ChildView::Id(j) => if j < exprs.len() && rank.len() == exprs.len() && rank[j as int] < bound {
            deg_expr(exprs, rank, im, exprs[j as int], rank[j as int])
        } else {
            0
        },
        ChildView::Inline(b) => deg_expr(exprs, rank, im, *b, bound),
    }
}

/// Polynomial degree of an expression: columns have degree 1, scalars 0,
/// `mul` adds and `add`/`sub` take the maximum; a reference to an
/// expression listed in `im` (an intermediate polynomial) has degree 1.
pub open spec fn deg_expr(exprs: Seq<ExprView>, rank: Seq<nat>, im: Seq<usize>, e: ExprView, bound: nat) -> int
    decreases bound, e,
{
    match e.op {
        ExprOp::Exp => {
            let j = exp_target(e);
            if im.contains(j as usize) {
                1
            } else if 0 <= j < exprs.len() && rank.len() == exprs.len() && rank[j] < bound {
                deg_expr(exprs, rank, im, exprs[j], rank[j])
            } else {
                0
            }
        },
        ExprOp::Const | ExprOp::Cm | ExprOp::Custom => 1,
        ExprOp::Zi => if e.boundary == Some(BoundaryKind::EveryRow) { 0 } else { 1 },
        ExprOp::Neg => if e.values.len() >= 1 { deg_child(exprs, rank, im, e.values[0], bound) } else { 0 },
        ExprOp::Add | ExprOp::Sub | ExprOp::Mul => {
            if e.values.len() >= 2 {
                let l = deg_child(exprs, rank, im, e.values[0], bound);
                let r = deg_child(exprs, rank, im, e.values[1], bound);
                if e.op == ExprOp::Mul { l + r } else if l >= r { l } else { r }
            } else {
                0
            }
        },
        _ => 0,
    }
}

/// The operations the degree computation knows; any other (`x`,
/// `xDivXSubXi`, `string`) is rejected.
pub open spec fn deg_known_op(op: ExprOp) -> bool {
    !(op == ExprOp::X || op == ExprOp::XDivXSubXi || op == ExprOp::StringVal)
}

/// Every node visited by the degree computation of a child has a known op.
pub open spec fn deg_ok_child(exprs: Seq<ExprView>, rank: Seq<nat>, im: Seq<usize>, c: ChildView, bound: nat) -> bool
    decreases bound, c,
{
    match c {
        ChildView::Id(j) => j < exprs.len() && rank.len() == exprs.len() && rank[j as int] < bound
            ==> deg_ok(exprs, rank, im, exprs[j as int], rank[j as int]),
        ChildView::Inline(b) => deg_ok(exprs, rank, im, *b, bound),
    }
}

/// Every node visited by the degree computation of `e` has a known op.
pub open spec fn deg_ok(exprs: Seq<ExprView>, rank: Seq<nat>, im: Seq<usize>, e: ExprView, bound: nat) -> bool
    decreases bound, e,
{
    &&& deg_known_op(e.op)
    &&& match e.op {
        ExprOp::Exp => {
            let j = exp_target(e);
            im.contains(j as usize) || (0 <= j < exprs.len() && rank.len() == exprs.len() && rank[j]
                < bound ==> deg_ok(exprs, rank, im, exprs[j], rank[j]))
        },
        ExprOp::Neg => e.values.len() >= 1 ==> deg_ok_child(exprs, rank, im, e.values[0], bound),
        ExprOp::Add | ExprOp::Sub | ExprOp::Mul => e.values.len() >= 2 ==> {
            &&& deg_ok_child(exprs, rank, im, e.values[0], bound)
            &&& deg_ok_child(exprs, rank, im, e.values[1], bound)
        },
        _ => true,
    }
}

/// Degree of arena entry `idx` given the intermediate polynomials `im`.
pub open spec fn exp_degree(exprs: Seq<ExprView>, im: Seq<usize>, idx: int) -> int {
    let rank = canon_rank(exprs);
    deg_expr(exprs, rank, im, exprs[idx], rank[idx])
}

/// The degree computation of arena entry `idx` meets only known operations.
pub open spec fn exp_degree_ok(exprs: Seq<ExprView>, im: Seq<usize>, idx: int) -> bool {
    let rank = canon_rank(exprs);
    deg_ok(exprs, rank, im, exprs[idx], rank[idx])
}

/// Degree of an inline expression (outside the arena).
pub open spec fn inline_degree(exprs: Seq<ExprView>, im: Seq<usize>, e: ExprView) -> int {
    let rank = canon_rank(exprs);
    deg_expr(exprs, rank, im, e, max_rank(rank) + 1)
}

/// The inline degree computation meets only known operations.
pub open spec fn inline_degree_ok(exprs: Seq<ExprView>, im: Seq<usize>, e: ExprView) -> bool {
    let rank = canon_rank(exprs);
    deg_ok(exprs, rank, im, e, max_rank(rank) + 1)
}

/// Largest rank in `rank` (0 for an empty sequence).
pub open spec fn max_rank(rank: Seq<nat>) -> nat
    decreases rank.len(),
{
    if rank.len() == 0 {
        0
    } else {
        let m = max_rank(rank.drop_last());
        if rank.last() > m { rank.last() } else { m }
    }
}

pub proof fn lemma_max_rank(rank: Seq<nat>, j: int)
    requires
        0 <= j < rank.len(),
    ensures
        rank[j] <= max_rank(rank),
    decreases rank.len(),
{
    if j < rank.len() - 1 {
        lemma_max_rank(rank.drop_last(), j);
    }
}

/// Degrees are never negative.
pub proof fn lemma_deg_nonneg(exprs: Seq<ExprView>, rank: Seq<nat>, im: Seq<usize>, e: ExprView, bound: nat)
    ensures
        deg_expr(exprs, rank, im, e, bound) >= 0,
    decreases bound, e,
{
    match e.op {
        ExprOp::Exp => {
            let j = exp_target(e);
            if 0 <= j < exprs.len() && rank.len() == exprs.len() && rank[j] < bound {
                lemma_deg_nonneg(exprs, rank, im, exprs[j], rank[j]);
            }
        },
        ExprOp::Neg | ExprOp::Add | ExprOp::Sub | ExprOp::Mul => {
            if e.values.len() >= 1 {
                lemma_deg_child_nonneg(exprs, rank, im, e.values[0], bound);
            }
            if e.values.len() >= 2 {
                lemma_deg_child_nonneg(exprs, rank, im, e.values[1], bound);
            }
        },
        _ => {},
    }
}

pub proof fn lemma_deg_child_nonneg(exprs: Seq<ExprView>, rank: Seq<nat>, im: Seq<usize>, c: ChildView, bound: nat)
    ensures
        deg_child(exprs, rank, im, c, bound) >= 0,
    decreases bound, c,
{
    match c {
        ChildView::Id(j) => {
            if 0 <= j < exprs.len() && rank.len() == exprs.len() && rank[j as int] < bound {
                lemma_deg_nonneg(exprs, rank, im, exprs[j as int], rank[j as int]);
            }
        },
        ChildView::Inline(b) => lemma_deg_nonneg(exprs, rank, im, *b, bound),
    }
}

/// `x`, capped at the largest `i64`.
pub open spec fn clamp_deg(x: int) -> int {
    if x > i64::MAX { i64::MAX as int } else { x }
}

/// `true` when `x` occurs in `s`.
pub fn slice_contains(s: &[usize], x: usize) -> (b: bool)
    ensures
        b == s@.contains(x),
{
    let mut i: usize = 0;
    while i < s.len()
        invariant
            i <= s@.len(),
            forall|k: int| 0 <= k < i ==> s@[k] != x,
        decreases s.len() - i,
    {
        if s[i] == x {
            proof {
                assert(s@[i as int] == x);
            }
            return true;
        }
        i = i + 1;
    }
    false
}

/// Degree of an arena child or an inline child.
fn deg_of_child(
    expressions: &[Expression],
    c: &ExprChild,
    im_exps: &[usize],
    Ghost(rank): Ghost<Seq<nat>>,
    Ghost(bound): Ghost<nat>,
) -> (d: i64)
    requires
        ranked(arena_view(expressions@), rank),
        arena_wf(arena_view(expressions@)),
        forall|j: int| #[trigger] child_refers_to(c@, j) ==> 0 <= j < expressions@.len() && rank[j] < bound,
        child_well_shaped(c@),
        deg_ok_child(arena_view(expressions@), rank, im_exps@, c@, bound),
    ensures
        d == clamp_deg(deg_child(arena_view(expressions@), rank, im_exps@, c@, bound)),
    decreases bound, c,
{
    let ghost av = arena_view(expressions@);
    match c {
        ExprChild::Id(id) => {
            let j = *id;
            assert(child_refers_to(c@, j as int));
            proof {
                assert(av[j as int] == expressions@[j as int]@);
                assert forall|k: int| #[trigger] refers_to(av[j as int], k) implies 0 <= k < expressions@.len()
                    && rank[k] < rank[j as int] by {}
            }
            deg_of_expr(expressions, &expressions[j], im_exps, Ghost(rank), Ghost(rank[j as int]))
        },
        ExprChild::Inline(b) => {
            proof {
                assert forall|k: int| #[trigger] refers_to(b@, k) implies 0 <= k < expressions@.len()
                    && rank[k] < bound by {
                    assert(child_refers_to(c@, k));
                }
            }
            deg_of_expr(expressions, &**b, im_exps, Ghost(rank), Ghost(bound))
        },
    }
}

/// Degree of an expression (arena entry or inline).
fn deg_of_expr(
    expressions: &[Expression],
    e: &Expression,
    im_exps: &[usize],
    Ghost(rank): Ghost<Seq<nat>>,
    Ghost(bound): Ghost<nat>,
) -> (d: i64)
    requires
        ranked(arena_view(expressions@), rank),
        arena_wf(arena_view(expressions@)),
        refs_below(arena_view(expressions@), rank, e@, bound),
        well_shaped(e@),
        deg_ok(arena_view(expressions@), rank, im_exps@, e@, bound),
    ensures
        d == clamp_deg(deg_expr(arena_view(expressions@), rank, im_exps@, e@, bound)),
    decreases bound, e,
{
    let ghost av = arena_view(expressions@);
    proof {
        lemma_children_view(e.values@);
    }
    match e.op {
        ExprOp::Exp => {
            let ref_id = match e.id {
                Some(i) => i,
                None => 0,
            };
            if slice_contains(im_exps, ref_id) {
                return 1;
            }
            assert(refers_to(e@, ref_id as int));
            proof {
                assert(av[ref_id as int] == expressions@[ref_id as int]@);
            }
            deg_of_expr(expressions, &expressions[ref_id], im_exps, Ghost(rank), Ghost(rank[ref_id as int]))
        },
        ExprOp::Const | ExprOp::Cm | ExprOp::Custom => 1,
        ExprOp::Zi => {
            match e.boundary {
                Some(BoundaryKind::EveryRow) => 0,
                _ => 1,
            }
        },
        ExprOp::Number | ExprOp::Public | ExprOp::Challenge | ExprOp::Eval | ExprOp::Airgroupvalue
        | ExprOp::Airvalue | ExprOp::Proofvalue => 0,
        ExprOp::Neg => {
            proof {
                lemma_child_shaped(e@, 0);
                assert forall|k: int| #[trigger] child_refers_to(e.values@[0]@, k) implies 0 <= k
                    < expressions@.len() && rank[k] < bound by {
                    lemma_child_refs(e@, 0, k);
                }
            }
            deg_of_child(expressions, &e.values[0], im_exps, Ghost(rank), Ghost(bound))
        },
        ExprOp::Add | ExprOp::Sub | ExprOp::Mul => {
            proof {
                lemma_child_shaped(e@, 0);
                lemma_child_shaped(e@, 1);
                assert forall|k: int| #[trigger] child_refers_to(e.values@[0]@, k) implies 0 <= k
                    < expressions@.len() && rank[k] < bound by {
                    lemma_child_refs(e@, 0, k);
                }
                assert forall|k: int| #[trigger] child_refers_to(e.values@[1]@, k) implies 0 <= k
                    < expressions@.len() && rank[k] < bound by {
                    lemma_child_refs(e@, 1, k);
                }
                lemma_deg_child_nonneg(av, rank, im_exps@, e@.values[0], bound);
                lemma_deg_child_nonneg(av, rank, im_exps@, e@.values[1], bound);
            }
            let l = deg_of_child(expressions, &e.values[0], im_exps, Ghost(rank), Ghost(bound));
            let r = deg_of_child(expressions, &e.values[1], im_exps, Ghost(rank), Ghost(bound));
            match e.op {
                ExprOp::Mul => {
                    let s: i128 = l as i128 + r as i128;
                    if s > i64::MAX as i128 { i64::MAX } else { s as i64 }
                },
                _ => if l >= r { l } else { r },
            }
        },
        _ => 0,
    }
}

/// Polynomial degree of arena entry `idx`, treating references to the
/// expressions in `im_exps` as degree 1 (a degree beyond `i64` is reported as
/// `i64::MAX`).
pub fn calculate_exp_deg(
    expressions: &[Expression],
    idx: usize,
    im_exps: &[usize],
    _cache_values: bool,
) -> (d: i64)
    requires
        arena_wf(arena_view(expressions@)),
        idx < expressions@.len(),
        exp_degree_ok(arena_view(expressions@), im_exps@, idx as int),
    ensures
        d == clamp_deg(exp_degree(arena_view(expressions@), im_exps@, idx as int)),
{
    let ghost av = arena_view(expressions@);
    let ghost rank = canon_rank(av);
    proof {
        assert(ranked(av, rank));
        assert(av[idx as int] == expressions@[idx as int]@);
        assert(well_shaped(av[idx as int]));
    }
    deg_of_expr(expressions, &expressions[idx], im_exps, Ghost(rank), Ghost(rank[idx as int]))
}

/// Polynomial degree of an expression that is not stored in the arena.
pub fn calculate_exp_deg_inline(
    expressions: &[Expression],
    exp: &Expression,
    im_exps: &[usize],
    _cache_values: bool,
) -> (d: i64)
    requires
        arena_wf(arena_view(expressions@)),
        inline_wf(arena_view(expressions@), exp@),
        inline_degree_ok(arena_view(expressions@), im_exps@, exp@),
    ensures
        d == clamp_deg(inline_degree(arena_view(expressions@), im_exps@, exp@)),
{
    let ghost av = arena_view(expressions@);
    let ghost rank = canon_rank(av);
    proof {
        assert(ranked(av, rank));
        assert forall|j: int| #[trigger] refers_to(exp@, j) implies 0 <= j < av.len() && rank[j]
            < max_rank(rank) + 1 by {
            lemma_max_rank(rank, j);
        }
    }
    deg_of_expr(expressions, exp, im_exps, Ghost(rank), Ghost((max_rank(rank) + 1) as nat))
}


// ---------------------------------------------------------------------------
// Constraint polynomial
// ---------------------------------------------------------------------------

/// A row set on which constraints are enforced (with a frame's offsets for
/// `everyFrame`).
#[derive(Debug, Clone, Copy, PartialEq, Eq, Structural)]
pub struct Boundary {
    pub name: BoundaryKind,
    pub offset_min: Option<u32>,
    pub offset_max: Option<u32>,
}

/// The constraint polynomial: its arena entry, its dimension, and its degree
/// before intermediate polynomials are chosen.
#[derive(Debug, Clone, Copy, PartialEq, Eq, Structural)]
pub struct ConstraintPolyResult {
    pub c_exp_id: usize,
    pub q_dim: usize,
    pub initial_q_degree: i64,
}

/// `b` is the boundary `kind` (for `everyFrame`, with the same offsets).
pub open spec fn bmatch(b: Boundary, kind: BoundaryKind, omin: Option<u32>, omax: Option<u32>) -> bool {
    if kind == BoundaryKind::EveryFrame {
        b.name == BoundaryKind::EveryFrame && b.offset_min == omin && b.offset_max == omax
    } else {
        b.name == kind
    }
}

/// `i` is the first boundary of `bs` that matches.
pub open spec fn first_bmatch(bs: Seq<Boundary>, kind: BoundaryKind, omin: Option<u32>, omax: Option<u32>, i: int) -> bool {
    &&& 0 <= i < bs.len()
    &&& bmatch(bs[i], kind, omin, omax)
    &&& forall|k: int| 0 <= k < i ==> !bmatch(#[trigger] bs[k], kind, omin, omax)
}

/// The boundaries after looking a boundary up (appending it when missing),
/// and its index.
pub open spec fn find_or_add_spec(bs: Seq<Boundary>, kind: BoundaryKind, omin: Option<u32>, omax: Option<u32>) -> (
    Seq<Boundary>,
    int,
) {
    if exists|i: int| first_bmatch(bs, kind, omin, omax, i) {
        (bs, choose|i: int| first_bmatch(bs, kind, omin, omax, i))
    } else {
        (bs.push(Boundary { name: kind, offset_min: omin, offset_max: omax }), bs.len() as int)
    }
}

/// The offsets a constraint's boundary is looked up with.
pub open spec fn c_omin(c: ConstraintInfo) -> Option<u32> {
    if c.boundary == BoundaryKind::EveryFrame { c.offset_min } else { None }
}

pub open spec fn c_omax(c: ConstraintInfo) -> Option<u32> {
    if c.boundary == BoundaryKind::EveryFrame { c.offset_max } else { None }
}

/// A constraint not enforced on every row is multiplied by its boundary's
/// vanishing polynomial.
pub open spec fn zi_wrapped(c: ConstraintInfo) -> bool {
    c.boundary != BoundaryKind::EveryRow
}

/// The boundaries after the first `k` constraints.
pub open spec fn bounds_after(b0: Seq<Boundary>, cs: Seq<ConstraintInfo>, k: int) -> Seq<Boundary>
    decreases k,
{
    if k <= 0 {
        b0
    } else {
        let b = bounds_after(b0, cs, k - 1);
        let c = cs[k - 1];
        if zi_wrapped(c) {
            find_or_add_spec(b, c.boundary, c_omin(c), c_omax(c)).0
        } else {
            b
        }
    }
}

/// The boundary index used by constraint `k`.
pub open spec fn bid(b0: Seq<Boundary>, cs: Seq<ConstraintInfo>, k: int) -> int {
    let c = cs[k];
    find_or_add_spec(bounds_after(b0, cs, k), c.boundary, c_omin(c), c_omax(c)).1
}

/// Number of arena entries appended for the first `k` constraints.
pub open spec fn pushes_before(cs: Seq<ConstraintInfo>, k: int) -> int
    decreases k,
{
    if k <= 0 {
        0
    } else {
        pushes_before(cs, k - 1) + (if zi_wrapped(cs[k - 1]) { 1int } else { 0 }) + (if k - 1 >= 1 { 2int } else { 0 })
    }
}

/// Arena index of the expression that stands for constraint `k`.
pub open spec fn constraint_node(base: int, cs: Seq<ConstraintInfo>, k: int) -> int {
    if zi_wrapped(cs[k]) { base + pushes_before(cs, k) } else { cs[k].e as int }
}

/// Number of challenges of `syms` in a stage before `stage`.
pub open spec fn challenges_before(syms: Seq<SymbolInfo>, stage: int) -> nat
    decreases syms.len(),
{
    if syms.len() == 0 {
        0
    } else {
        let s = syms.last();
        challenges_before(syms.drop_last(), stage) + if s.sym_type == SymType::Challenge && s.stage is Some
            && (s.stage.unwrap() as int) < stage { 1nat } else { 0 }
    }
}

/// The positions of the challenges of `syms` whose stage is before `stage`.
pub open spec fn earlier_challenges(syms: Seq<SymbolInfo>, stage: int) -> Set<int> {
    Set::new(
        |i: int|
            0 <= i < syms.len() && syms[i].sym_type == SymType::Challenge && (match syms[i].stage {
                Some(st) => (st as int) < stage,
                None => false,
            }),
    )
}

/// A new challenge of stage `stage` is numbered after every challenge of an
/// earlier stage: its index is how many of them there are.
pub proof fn lemma_challenge_index_counts(syms: Seq<SymbolInfo>, stage: int)
    ensures
        earlier_challenges(syms, stage).finite(),
        challenges_before(syms, stage) == earlier_challenges(syms, stage).len(),
    decreases syms.len(),
{
    let e = earlier_challenges(syms, stage);
    if syms.len() == 0 {
        assert(e =~= Set::<int>::empty());
    } else {
        let p = syms.drop_last();
        lemma_challenge_index_counts(p, stage);
        let ep = earlier_challenges(p, stage);
        let k = syms.len() - 1;
        let s = syms.last();
        let q = s.sym_type == SymType::Challenge && (match s.stage {
            Some(st) => (st as int) < stage,
            None => false,
        });
        if q {
            assert(e =~= ep.insert(k));
            assert(!ep.contains(k));
        } else {
            assert(e =~= ep);
        }
    }
}

/// `s` is the challenge `name` of stage `stage` with index `id`.
pub open spec fn is_challenge_symbol(s: SymbolInfo, name: Seq<char>, stage: int, id: int) -> bool {
    &&& s.sym_type == SymType::Challenge
    &&& s.name@ == name
    &&& s.stage == Some(stage as usize)
    &&& s.dim == FIELD_EXTENSION
    &&& s.stage_id == Some(0usize)
    &&& s.id == Some(id as usize)
    &&& s.pol_id is None
    &&& s.air_id is None
    &&& s.airgroup_id is None
    &&& s.commit_id is None
    &&& s.lengths is None
    &&& s.idx is None
    &&& s.stage_pos is None
    &&& !s.im_pol
    &&& s.exp_id is None
}

/// An inline child with the given operation and target.
pub open spec fn inline_is(c: ChildView, op: ExprOp, id: Option<usize>) -> bool {
    c matches ChildView::Inline(y) && y.op == op && y.id == id
}

/// Entry `i` has operation `op` and exactly two inline children with the
/// given operations and targets.
pub open spec fn pair_node(
    av: Seq<ExprView>,
    i: int,
    op: ExprOp,
    op0: ExprOp,
    id0: Option<usize>,
    op1: ExprOp,
    id1: Option<usize>,
) -> bool {
    &&& 0 <= i < av.len()
    &&& av[i].op == op
    &&& av[i].values.len() == 2
    &&& inline_is(av[i].values[0], op0, id0)
    &&& inline_is(av[i].values[1], op1, id1)
}

/// Entry `i` is `exp(e) * Zi` for boundary `b` of kind `kind`.
pub open spec fn zi_node(av: Seq<ExprView>, i: int, e: usize, b: int, kind: BoundaryKind) -> bool {
    &&& pair_node(av, i, ExprOp::Mul, ExprOp::Exp, Some(e), ExprOp::Zi, None)
    &&& av[i].values[1]->Inline_0.boundary_id == Some(b as usize)
    &&& av[i].values[1]->Inline_0.boundary == Some(kind)
}

proof fn lemma_pair_node_stable(o: Seq<ExprView>, n: Seq<ExprView>, i: int, op0: ExprOp, id0: Option<usize>, op1: ExprOp, id1: Option<usize>)
    requires
        pair_node(o, i, ExprOp::Mul, op0, id0, op1, id1),
        keeps_annotations(o, n),
        !crate::helpers::is_arith(op0) && op0 != ExprOp::Neg,
        !crate::helpers::is_arith(op1) && op1 != ExprOp::Neg,
    ensures
        pair_node(n, i, ExprOp::Mul, op0, id0, op1, id1),
        o[i].values[1]->Inline_0.boundary_id == n[i].values[1]->Inline_0.boundary_id,
        o[i].values[1]->Inline_0.boundary == n[i].values[1]->Inline_0.boundary,
{
    assert(entry_shape(o[i], n[i]));
    assert(child_shape(o[i].values[0], n[i].values[0]));
    assert(child_shape(o[i].values[1], n[i].values[1]));
}

/// Looks up boundary `name`, appending it when missing; returns its index.
fn find_or_add_boundary(boundaries: &mut Vec<Boundary>, name: BoundaryKind) -> (r: usize)
    requires
        name != BoundaryKind::EveryFrame,
    ensures
        (final(boundaries)@, r as int) == find_or_add_spec(old(boundaries)@, name, None, None),
{
    find_boundary(boundaries, name, None, None)
}

/// Looks up the `everyFrame` boundary with the given offsets, appending it
/// when missing; returns its index.
fn find_or_add_boundary_every_frame(boundaries: &mut Vec<Boundary>, offset_min: Option<u32>, offset_max: Option<u32>) -> (r: usize)
    ensures
        (final(boundaries)@, r as int) == find_or_add_spec(
            old(boundaries)@,
            BoundaryKind::EveryFrame,
            offset_min,
            offset_max,
        ),
{
    find_boundary(boundaries, BoundaryKind::EveryFrame, offset_min, offset_max)
}

fn find_boundary(boundaries: &mut Vec<Boundary>, kind: BoundaryKind, omin: Option<u32>, omax: Option<u32>) -> (r: usize)
    requires
        kind != BoundaryKind::EveryFrame ==> omin is None && omax is None,
    ensures
        (final(boundaries)@, r as int) == find_or_add_spec(old(boundaries)@, kind, omin, omax),
{
    let ghost bs = boundaries@;
    let frame = match kind {
        BoundaryKind::EveryFrame => true,
        _ => false,
    };
    let mut i: usize = 0;
    while i < boundaries.len()
        invariant
            boundaries@ == bs,
            i <= bs.len(),
            frame == (kind == BoundaryKind::EveryFrame),
            forall|k: int| 0 <= k < i ==> !bmatch(#[trigger] bs[k], kind, omin, omax),
        decreases boundaries.len() - i,
    {
        let b = boundaries[i];
        let m = if frame {
            b.name == BoundaryKind::EveryFrame && b.offset_min == omin && b.offset_max == omax
        } else {
            b.name == kind
        };
        if m {
            proof {
                assert(first_bmatch(bs, kind, omin, omax, i as int));
                let c = choose|c: int| first_bmatch(bs, kind, omin, omax, c);
                if c < i {
                    assert(!bmatch(bs[c], kind, omin, omax));
                }
                if c > i {
                    assert(!bmatch(bs[i as int], kind, omin, omax));
                }
            }
            return i;
        }
        i = i + 1;
    }
    proof {
        assert(!exists|c: int| first_bmatch(bs, kind, omin, omax, c));
    }
    let r = boundaries.len();
    boundaries.push(Boundary { name: kind, offset_min: omin, offset_max: omax });
    r
}

/// Counts the challenges of `symbols` in a stage before `stage`.
pub(crate) fn count_challenges_before(symbols: &Vec<SymbolInfo>, stage: usize) -> (n: usize)
    ensures
        n == challenges_before(symbols@, stage as int),
        n == earlier_challenges(symbols@, stage as int).len(),
{
    let mut n: usize = 0;
    let mut i: usize = 0;
    while i < symbols.len()
        invariant
            i <= symbols@.len(),
            n == challenges_before(symbols@.subrange(0, i as int), stage as int),
            n <= i,
        decreases symbols.len() - i,
    {
        proof {
            let s = symbols@.subrange(0, i as int + 1);
            assert(s.drop_last() =~= symbols@.subrange(0, i as int));
        }
        let is_ch = match symbols[i].sym_type {
            SymType::Challenge => true,
            _ => false,
        };
        let before = match symbols[i].stage {
            Some(st) => st < stage,
            None => false,
        };
        if is_ch && before {
            n = n + 1;
        }
        i = i + 1;
    }
    proof {
        assert(symbols@.subrange(0, symbols@.len() as int) =~= symbols@);
        lemma_challenge_index_counts(symbols@, stage as int);
    }
    n
}

/// The challenge symbol `name` of stage `stage` with index `id`.
fn challenge_symbol(name: &str, stage: usize, id: usize) -> (s: SymbolInfo)
    ensures
        is_challenge_symbol(s, name@, stage as int, id as int),
{
    SymbolInfo {
        name: String::from_str(name),
        sym_type: SymType::Challenge,
        stage: Some(stage),
        dim: FIELD_EXTENSION,
        stage_id: Some(0),
        id: Some(id),
        pol_id: None,
        air_id: None,
        airgroup_id: None,
        commit_id: None,
        lengths: None,
        idx: None,
        stage_pos: None,
        im_pol: false,
        exp_id: None,
    }
}

/// An `exp` reference to arena entry `id` at row offset 0.
pub(crate) fn exp_ref(id: usize, stage: usize) -> (e: Expression)
    ensures
        e@.op == ExprOp::Exp,
        e@.id == Some(id),
        e@.values.len() == 0,
        e@.dim == 1,
        !e@.info_computed,
{
    let mut e = Expression::new(ExprOp::Exp);
    e.id = Some(id);
    e.row_offset = Some(0);
    e.stage = stage;
    proof {
        lemma_children_view(e.values@);
    }
    e
}

/// A node with operation `op` and the two inline children `a` and `b`.
fn pair_expr(op: ExprOp, a: Expression, b: Expression) -> (e: Expression)
    ensures
        e@.op == op,
        e@.values == seq![ChildView::Inline(Box::new(a@)), ChildView::Inline(Box::new(b@))],
        e@.dim == 1,
        e@.id is None,
        !e@.info_computed,
{
    let mut e = Expression::new(op);
    let mut v: Vec<ExprChild> = Vec::new();
    v.push(ExprChild::Inline(Box::new(a)));
    v.push(ExprChild::Inline(Box::new(b)));
    e.values = v;
    proof {
        lemma_children_view(e.values@);
        assert(e@.values =~= seq![ChildView::Inline(Box::new(a@)), ChildView::Inline(Box::new(b@))]);
    }
    e
}

/// A well-formed inline node can be appended to a well-formed arena.
pub proof fn lemma_push_wf(av: Seq<ExprView>, e: ExprView)
    requires
        arena_wf(av),
        inline_wf(av, e),
    ensures
        arena_wf(av.push(e)),
{
    let r = canon_rank(av);
    assert(ranked(av, r));
    let r2 = r.push(max_rank(r) + 1);
    let n = av.push(e);
    assert forall|i: int, j: int| 0 <= i < n.len() && #[trigger] refers_to(n[i], j) implies 0 <= j < n.len() && r2[j] < r2[i] by {
        if i < av.len() {
            assert(n[i] == av[i]);
        } else {
            lemma_max_rank(r, j);
        }
    }
    assert(ranked(n, r2));
    assert forall|i: int| 0 <= i < n.len() implies #[trigger] well_shaped(n[i]) by {
        if i < av.len() {
            assert(n[i] == av[i]);
        }
    }
}


/// What holds of the arena as long as the constraint polynomial is built.
pub open spec fn arena_ok(av: Seq<ExprView>) -> bool {
    arena_wf(av) && arena_known(av) && arena_sane(av)
}

pub(crate) proof fn lemma_push_ok(av: Seq<ExprView>, e: ExprView)
    requires
        arena_ok(av),
        inline_wf(av, e),
        tree_known(e),
        tree_sane(e),
    ensures
        arena_ok(av.push(e)),
        keeps_annotations(av, av.push(e)),
{
    lemma_push_wf(av, e);
    lemma_keeps_push(av, e);
    assert forall|i: int| 0 <= i < av.push(e).len() implies #[trigger] tree_known(av.push(e)[i]) && tree_sane(av.push(e)[i]) by {
        if i < av.len() {
            assert(av.push(e)[i] == av[i]);
        }
    }
}

/// The challenge node `vc` of the random linear combination.
pub open spec fn vc_node(vc: ExprView, vc_id: usize) -> bool {
    &&& vc.op == ExprOp::Challenge
    &&& vc.values.len() == 0
    &&& vc.dim == FIELD_EXTENSION
    &&& vc.id == Some(vc_id)
}

/// Appends `exp(lhs) op exp(rhs)`-style node `node`, annotated, to the arena;
/// returns its index.
fn push_annotated(expressions: &mut Vec<Expression>, node: Expression) -> (r: usize)
    requires
        arena_ok(arena_view(old(expressions)@)),
        inline_wf(arena_view(old(expressions)@), node@),
        tree_known(node@),
        tree_sane(node@),
        !node@.info_computed,
    ensures
        arena_ok(arena_view(final(expressions)@)),
        keeps_annotations(arena_view(old(expressions)@), arena_view(final(expressions)@)),
        r + 1 == final(expressions)@.len(),
        r >= old(expressions)@.len(),
        arena_view(final(expressions)@)[r as int].info_computed,
        info_result(
            arena_view(old(expressions)@),
            arena_view(final(expressions)@).subrange(0, r as int),
            node@,
            arena_view(final(expressions)@)[r as int],
        ),
        r == arena_view(final(expressions)@).len() - 1,
        crate::helpers::arena_nn(arena_view(old(expressions)@)) && crate::helpers::tree_nn(node@) ==> crate::helpers::arena_nn(
            arena_view(final(expressions)@),
        ) && final(expressions)@.len() == old(expressions)@.len() + 1,
{
    let mut e = node;
    add_info_expression_inline(expressions, &mut e);
    let ghost mid = arena_view(expressions@);
    let r = expressions.len();
    expressions.push(e);
    proof {
        let n = arena_view(expressions@);
        assert(n =~= mid.push(e@));
        lemma_push_ok(mid, e@);
        lemma_keeps_trans(arena_view(old(expressions)@), mid, n);
        assert(n.subrange(0, r as int) =~= mid);
        if crate::helpers::arena_nn(arena_view(old(expressions)@)) && crate::helpers::tree_nn(node@) {
            assert forall|i: int| 0 <= i < n.len() implies #[trigger] crate::helpers::tree_nn(n[i]) by {
                if i < mid.len() {
                    assert(n[i] == mid[i]);
                }
            }
        }
    }
    r
}

/// Adds the term of one constraint: its boundary, its (possibly
/// `Zi`-multiplied) expression and, after the first constraint, the
/// accumulation `vc * previous + constraint`. Returns the constraint's node
/// and the new constraint polynomial.
fn add_constraint_term(
    expressions: &mut Vec<Expression>,
    boundaries: &mut Vec<Boundary>,
    c: &ConstraintInfo,
    stage: usize,
    vc: &Expression,
    prev: Option<usize>,
) -> (r: (usize, usize))
    requires
        arena_ok(arena_view(old(expressions)@)),
        c.e < old(expressions)@.len(),
        vc_node(vc@, vc@.id.unwrap()),
        prev is Some ==> prev.unwrap() < old(expressions)@.len(),
    ensures
        ({
            let o = arena_view(old(expressions)@);
            let n = arena_view(final(expressions)@);
            &&& arena_ok(n)
            &&& keeps_annotations(o, n)
            &&& zi_wrapped(*c) ==> final(boundaries)@ == find_or_add_spec(old(boundaries)@, c.boundary, c_omin(*c), c_omax(*c)).0
            &&& !zi_wrapped(*c) ==> final(boundaries)@ == old(boundaries)@
            &&& r.0 as int == if zi_wrapped(*c) { o.len() as int } else { c.e as int }
            &&& zi_wrapped(*c) ==> zi_node(n, o.len() as int, c.e, bid_of(old(boundaries)@, *c), c.boundary)
            &&& prev is None ==> r.1 == r.0
            &&& prev is Some ==> accumulation(n, r.1 as int, vc@.id.unwrap(), prev.unwrap(), r.0) && r.1 >= o.len()
            &&& r.1 < n.len()
            &&& prev is None ==> n.len() == o.len() + if zi_wrapped(*c) { 1int } else { 0 }
            &&& prev is Some ==> r.1 == n.len() - 1
            &&& crate::helpers::arena_nn(o) ==> crate::helpers::arena_nn(n) && n.len() == o.len() + (if zi_wrapped(*c) {
                1int
            } else {
                0
            }) + (if prev is Some { 2int } else { 0 })
        }),
{
    let ghost o = arena_view(expressions@);
    let ghost b0 = boundaries@;
    let e = exp_ref(c.e, stage);
    let constraint_id: usize = match c.boundary {
        BoundaryKind::EveryRow => {
            proof {
                assert(arena_view(expressions@) == o);
            }
            c.e
        },
        _ => {
            let bid = match c.boundary {
                BoundaryKind::EveryFrame => find_or_add_boundary_every_frame(boundaries, c.offset_min, c.offset_max),
                _ => find_or_add_boundary(boundaries, c.boundary),
            };
            let mut zi = Expression::new(ExprOp::Zi);
            zi.boundary_id = Some(bid);
            zi.boundary = Some(c.boundary);
            proof {
                lemma_children_view(zi.values@);
            }
            let m = pair_expr(ExprOp::Mul, e, zi);
            proof {
                lemma_pair_facts(m@);
                assert(inline_wf(o, m@));
                lemma_push_ok(o, m@);
            }
            let id = expressions.len();
            expressions.push(m);
            proof {
                assert(arena_view(expressions@) =~= o.push(m@));
                assert(bid as int == bid_of(b0, *c));
                if crate::helpers::arena_nn(o) {
                    let n = arena_view(expressions@);
                    assert forall|i: int| 0 <= i < n.len() implies #[trigger] crate::helpers::tree_nn(n[i]) by {
                        if i < o.len() {
                            assert(n[i] == o[i]);
                        }
                    }
                }
            }
            id
        },
    };
    let ghost o1 = arena_view(expressions@);
    proof {
        assert(o1.len() == o.len() + if zi_wrapped(*c) { 1int } else { 0 });
    }
    match prev {
        None => (constraint_id, constraint_id),
        Some(p) => {
            let prev_ref = exp_ref(p, stage);
            let vcc = vc.deep_copy();
            let weighted = pair_expr(ExprOp::Mul, vcc, prev_ref);
            proof {
                lemma_pair_facts(weighted@);
            }
            let w = push_annotated(expressions, weighted);
            let ghost o2 = arena_view(expressions@);
            let wref = exp_ref(w, stage);
            let cref = exp_ref(constraint_id, stage);
            let acc = pair_expr(ExprOp::Add, wref, cref);
            proof {
                lemma_pair_facts(acc@);
            }
            let a = push_annotated(expressions, acc);
            proof {
                let n = arena_view(expressions@);
                lemma_keeps_trans(o1, o2, n);
                lemma_keeps_trans(o, o1, n);
                let w1 = o2[w as int];
                assert(bin_result(o1, o2.subrange(0, w as int), weighted@, w1));
                assert(rewritten_op(o1, weighted@) == ExprOp::Mul);
                assert(child_shape(weighted@.values[0], w1.values[0]));
                assert(child_shape(weighted@.values[1], w1.values[1]));
                assert(kept(n[w as int], o2[w as int]));
                assert(n[w as int] == w1);
                // the accumulation
                let a1 = n[a as int];
                assert(bin_result(o2, n.subrange(0, a as int), acc@, a1));
                assert(!is_zero_number(resolve_view(o2, acc@.values[0])));
                assert(!is_zero_number(resolve_view(o2, acc@.values[1])));
                assert(rewritten_op(o2, acc@) == ExprOp::Add);
                assert(child_shape(acc@.values[0], a1.values[0]));
                assert(child_shape(acc@.values[1], a1.values[1]));
                if zi_wrapped(*c) {
                    lemma_pair_node_stable(o1, n, o.len() as int, ExprOp::Exp, Some(c.e), ExprOp::Zi, None);
                }
            }
            (constraint_id, a)
        },
    }
}

/// Entry `a` is `exp(w) + exp(cn)` for an entry `w` that is `vc * exp(p)`,
/// both annotated.
pub open spec fn accumulation(av: Seq<ExprView>, a: int, vc_id: usize, p: usize, cn: usize) -> bool {
    let w = inline_of(av[a].values[0]).id.unwrap() as int;
    &&& pair_node(av, a, ExprOp::Add, ExprOp::Exp, Some(w as usize), ExprOp::Exp, Some(cn))
    &&& pair_node(av, w, ExprOp::Mul, ExprOp::Challenge, Some(vc_id), ExprOp::Exp, Some(p))
    &&& av[a].info_computed
    &&& av[w].info_computed
}

/// The boundary index constraint `c` gets from boundaries `bs`.
pub open spec fn bid_of(bs: Seq<Boundary>, c: ConstraintInfo) -> int {
    find_or_add_spec(bs, c.boundary, c_omin(c), c_omax(c)).1
}


/// Entry `c` stands for constraint `k`: the constraint's own expression on
/// every row, otherwise `exp(e) * Zi` of its boundary.
pub open spec fn constraint_node_ok(av: Seq<ExprView>, b0: Seq<Boundary>, cs: Seq<ConstraintInfo>, k: int, c: int) -> bool {
    if zi_wrapped(cs[k]) {
        zi_node(av, c, cs[k].e, bid(b0, cs, k), cs[k].boundary)
    } else {
        c == cs[k].e
    }
}

/// Entry `c` is the constraint polynomial of the first `k + 1` constraints:
/// the first constraint's node, then `vc * previous + constraint` for each
/// further one.
pub open spec fn cexp_chain(av: Seq<ExprView>, b0: Seq<Boundary>, cs: Seq<ConstraintInfo>, k: int, c: int, vc_id: usize) -> bool
    decreases k,
{
    if k <= 0 {
        constraint_node_ok(av, b0, cs, 0, c)
    } else {
        let cn = inline_of(av[c].values[1]).id.unwrap() as int;
        let w = inline_of(av[c].values[0]).id.unwrap() as int;
        let p = inline_of(av[w].values[1]).id.unwrap() as int;
        &&& 0 <= c < av.len()
        &&& accumulation(av, c, vc_id, p as usize, cn as usize)
        &&& constraint_node_ok(av, b0, cs, k, cn)
        &&& cexp_chain(av, b0, cs, k - 1, p, vc_id)
    }
}

proof fn lemma_constraint_node_stable(o: Seq<ExprView>, n: Seq<ExprView>, b0: Seq<Boundary>, cs: Seq<ConstraintInfo>, k: int, c: int)
    requires
        constraint_node_ok(o, b0, cs, k, c),
        keeps_annotations(o, n),
    ensures
        constraint_node_ok(n, b0, cs, k, c),
{
    if zi_wrapped(cs[k]) {
        lemma_pair_node_stable(o, n, c, ExprOp::Exp, Some(cs[k].e), ExprOp::Zi, None);
    }
}

proof fn lemma_chain_stable(o: Seq<ExprView>, n: Seq<ExprView>, b0: Seq<Boundary>, cs: Seq<ConstraintInfo>, k: int, c: int, vc_id: usize)
    requires
        cexp_chain(o, b0, cs, k, c, vc_id),
        keeps_annotations(o, n),
    ensures
        cexp_chain(n, b0, cs, k, c, vc_id),
    decreases k,
{
    if k <= 0 {
        lemma_constraint_node_stable(o, n, b0, cs, 0, c);
    } else {
        let cn = inline_of(o[c].values[1]).id.unwrap() as int;
        let w = inline_of(o[c].values[0]).id.unwrap() as int;
        let p = inline_of(o[w].values[1]).id.unwrap() as int;
        assert(kept(n[c], o[c]));
        assert(kept(n[w], o[w]));
        assert(n[c] == o[c]);
        assert(n[w] == o[w]);
        lemma_constraint_node_stable(o, n, b0, cs, k, cn);
        lemma_chain_stable(o, n, b0, cs, k - 1, p, vc_id);
    }
}

/// The number `0` node used when there is no constraint.
pub open spec fn zero_node(x: ExprView) -> bool {
    &&& is_zero_number(x)
    &&& x.values.len() == 0
    &&& x.dim == 1
    &&& !x.info_computed
}

/// Builds the constraint polynomial: every constraint not enforced on every
/// row is multiplied by its boundary's vanishing polynomial `Zi` (looking the
/// boundary up, or appending it), and the constraints are folded as
/// `vc * previous + constraint` with the new challenge `std_vc` of stage
/// `n_stages + 1`. The challenge `std_xi` of the next stage is added when
/// there is a constraint. Without constraints the polynomial is the number 0.
pub fn generate_constraint_polynomial(
    n_stages: usize,
    expressions: &mut Vec<Expression>,
    symbols: &mut Vec<SymbolInfo>,
    constraints: &[ConstraintInfo],
    boundaries: &mut Vec<Boundary>,
) -> (res: ConstraintPolyResult)
    requires
        n_stages + 2 <= usize::MAX,
        arena_ok(arena_view(old(expressions)@)),
        forall|i: int| 0 <= i < constraints@.len() ==> (#[trigger] constraints@[i]).e < old(expressions)@.len(),
    ensures
        ({
            let o = arena_view(old(expressions)@);
            let n = arena_view(final(expressions)@);
            let cs = constraints@;
            let vc_id = challenges_before(old(symbols)@, n_stages + 1);
            &&& arena_ok(n)
            &&& keeps_annotations(o, n)
            &&& final(boundaries)@ == bounds_after(old(boundaries)@, cs, cs.len() as int)
            &&& final(symbols)@.len() == old(symbols)@.len() + if cs.len() == 0 { 1int } else { 2 }
            &&& final(symbols)@.subrange(0, old(symbols)@.len() as int) == old(symbols)@
            &&& is_challenge_symbol(final(symbols)@[old(symbols)@.len() as int], "std_vc"@, n_stages + 1, vc_id as int)
            &&& vc_id == earlier_challenges(old(symbols)@, n_stages + 1).len()
            &&& cs.len() > 0 ==> is_challenge_symbol(
                final(symbols)@[old(symbols)@.len() as int + 1],
                "std_xi"@,
                n_stages + 2,
                challenges_before(final(symbols)@.subrange(0, old(symbols)@.len() as int + 1), n_stages + 2) as int,
            )
            &&& cs.len() == 0 ==> {
                &&& n.len() == o.len() + 1
                &&& n.subrange(0, o.len() as int) == o
                &&& zero_node(n[o.len() as int])
                &&& res == (ConstraintPolyResult { c_exp_id: o.len() as usize, q_dim: 1, initial_q_degree: 0 })
            }
            &&& cs.len() == 1 ==> n.len() == o.len() + pushes_before(cs, 1) && res.c_exp_id == constraint_node(
                o.len() as int,
                cs,
                0,
            )
            &&& cs.len() >= 2 ==> res.c_exp_id == n.len() - 1
            &&& cs.len() > 0 && crate::helpers::arena_nn(o) ==> crate::helpers::arena_nn(n) && n.len() == o.len()
                + pushes_before(cs, cs.len() as int)
            &&& cs.len() > 0 ==> {
                &&& res.c_exp_id < n.len()
                &&& cexp_chain(n, old(boundaries)@, cs, cs.len() - 1, res.c_exp_id as int, vc_id as usize)
                &&& res.q_dim == exp_dim(n, res.c_exp_id as int)
                &&& res.initial_q_degree == if n[res.c_exp_id as int].exp_deg > 0 {
                    n[res.c_exp_id as int].exp_deg as int
                } else {
                    clamp_deg(exp_degree(n, Seq::empty(), res.c_exp_id as int))
                }
            }
        }),
{
    let ghost o = arena_view(expressions@);
    let ghost b0 = boundaries@;
    let ghost syms0 = symbols@;
    let ghost cs = constraints@;
    let stage = n_stages + 1;
    let vc_id = count_challenges_before(symbols, stage);
    symbols.push(challenge_symbol("std_vc", stage, vc_id));
    let mut vc_expr = Expression::new(ExprOp::Challenge);
    vc_expr.stage = stage;
    vc_expr.dim = FIELD_EXTENSION;
    vc_expr.stage_id = Some(0);
    vc_expr.id = Some(vc_id);
    vc_expr.value = Some(String::from_str("std_vc"));
    vc_expr.exp_deg = 0;
    proof {
        lemma_children_view(vc_expr.values@);
        assert(bounds_after(b0, cs, 0) == b0);
    }
    let mut c_exp_id: Option<usize> = None;
    let n = constraints.len();
    let mut i: usize = 0;
    while i < n
        invariant
            n == cs.len(),
            cs == constraints@,
            i <= n,
            arena_ok(arena_view(expressions@)),
            keeps_annotations(o, arena_view(expressions@)),
            boundaries@ == bounds_after(b0, cs, i as int),
            vc_node(vc_expr@, vc_id),
            forall|t: int| 0 <= t < cs.len() ==> (#[trigger] cs[t]).e < o.len(),
            i == 0 ==> c_exp_id is None && arena_view(expressions@) == o && boundaries@ == b0,
            i == 1 ==> expressions@.len() == o.len() + pushes_before(cs, 1) && c_exp_id is Some && c_exp_id.unwrap() as int
                == constraint_node(o.len() as int, cs, 0),
            i >= 2 ==> c_exp_id is Some && c_exp_id.unwrap() as int == expressions@.len() - 1,
            crate::helpers::arena_nn(o) ==> crate::helpers::arena_nn(arena_view(expressions@)) && expressions@.len()
                == o.len() + pushes_before(cs, i as int),
            i > 0 ==> c_exp_id is Some && c_exp_id.unwrap() < expressions@.len() && cexp_chain(
                arena_view(expressions@),
                b0,
                cs,
                i - 1,
                c_exp_id.unwrap() as int,
                vc_id,
            ),
        decreases n - i,
    {
        let ghost before = arena_view(expressions@);
        let ghost bs = boundaries@;
        proof {
            assert(cs[i as int].e < o.len());
        }
        let (cid, new_c) = add_constraint_term(expressions, boundaries, &constraints[i], stage, &vc_expr, c_exp_id);
        proof {
            let after = arena_view(expressions@);
            if i == 0 {
                assert(pushes_before(cs, 0) == 0);
                assert(pushes_before(cs, 1) == pushes_before(cs, 0) + (if zi_wrapped(cs[0]) { 1int } else { 0 }));
                assert(before == o);
                assert(cs[0] == constraints@[0]);
            }
            lemma_keeps_trans(o, before, after);
            assert(bounds_after(b0, cs, i as int + 1) == (if zi_wrapped(cs[i as int]) {
                find_or_add_spec(bs, cs[i as int].boundary, c_omin(cs[i as int]), c_omax(cs[i as int])).0
            } else {
                bs
            }));
            assert(bid(b0, cs, i as int) == bid_of(bs, cs[i as int]));
            if zi_wrapped(cs[i as int]) {
                assert(cid as int == before.len());
                assert(zi_node(after, cid as int, cs[i as int].e, bid_of(bs, cs[i as int]), cs[i as int].boundary));
            }
            assert(constraint_node_ok(after, b0, cs, i as int, cid as int));
            if i > 0 {
                let p = c_exp_id.unwrap();
                lemma_chain_stable(before, after, b0, cs, i - 1, p as int, vc_id);
                assert(cexp_chain(after, b0, cs, i as int, new_c as int, vc_id));
            }
        }
        c_exp_id = Some(new_c);
        i = i + 1;
    }
    let c_exp = match c_exp_id {
        Some(id) => id,
        None => {
            let mut dummy = Expression::new(ExprOp::Number);
            dummy.value = Some(String::from_str("0"));
            dummy.dim = 1;
            let id = expressions.len();
            proof {
                lemma_children_view(dummy.values@);
                crate::helpers::lemma_leaf_facts_pub(dummy@);
                assert(inline_wf(o, dummy@));
                lemma_push_ok(arena_view(expressions@), dummy@);
            }
            expressions.push(dummy);
            proof {
                reveal_strlit("0");
                assert(arena_view(expressions@) =~= o.push(dummy@));
                assert(arena_view(expressions@).subrange(0, o.len() as int) =~= o);
            }
            return ConstraintPolyResult { c_exp_id: id, q_dim: 1, initial_q_degree: 0 };
        },
    };
    proof {
        lemma_sane_arena_defined(arena_view(expressions@), Seq::empty(), c_exp as int);
        assert(arena_view(expressions@).len() == expressions@.len());
        if n == 1 {
            assert(c_exp as int == constraint_node(o.len() as int, cs, 0));
        }
    }
    let q_dim = get_exp_dim(expressions, c_exp);
    let xi_stage = stage + 1;
    let xi_id = count_challenges_before(symbols, xi_stage);
    symbols.push(challenge_symbol("std_xi", xi_stage, xi_id));
    let initial_q_degree = if expressions[c_exp].exp_deg > 0 {
        expressions[c_exp].exp_deg
    } else {
        let e: &[usize] = &[];
        proof {
            assert(e@ =~= Seq::<usize>::empty());
        }
        calculate_exp_deg(expressions.as_slice(), c_exp, e, true)
    };
    proof {
        assert(symbols@.subrange(0, syms0.len() as int) =~= syms0);
        assert(symbols@.subrange(0, syms0.len() as int + 1) =~= syms0.push(symbols@[syms0.len() as int]));
    }
    ConstraintPolyResult { c_exp_id: c_exp, q_dim, initial_q_degree }
}

} // verus!
