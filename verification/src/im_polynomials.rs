//! Choice of intermediate polynomials: the degree of an expression with some
//! sub-expressions committed as columns, the search for the set of
//! sub-expressions that keeps the constraint degree within a bound, and the
//! columns and constraints that the chosen set adds.
use vstd::prelude::*;
use std::collections::HashMap;
use vstd::multiset::Multiset;
use crate::expression::{
    arena_view, canon_rank, child_refers_to, exp_target, lemma_children_view, lemma_child_refs, lemma_child_shaped,
    ranked, refers_to, refs_below, arena_wf, well_shaped, BoundaryKind, ChildView, ExprChild, ExprOp, ExprView,
    Expression,
};
use crate::constraint_poly::{clamp_deg, deg_child, deg_expr, deg_ok, deg_ok_child, exp_degree, exp_degree_ok, lemma_deg_nonneg, lemma_deg_child_nonneg, slice_contains};
use crate::helpers::{
    bin_result, child_shape, is_zero_number, resolve_view, rewritten_op, entry_shape, height, child_height, info_result, keeps_annotations, kept,
    lemma_entry_shape_refl, lemma_entry_shape_trans, lemma_node_pointwise, node_shape, tree_known, tree_sane,
};
use crate::constraint_poly::{arena_ok, challenges_before, count_challenges_before, exp_ref, lemma_push_ok, Boundary};
use crate::expression::inline_wf;
use crate::pilout_info::{ConstraintInfo, SymbolInfo, SymType};
use crate::text::{decimal, u64_to_decimal};
use crate::helpers::{add_info_expressions, get_exp_dim, lemma_keeps_trans, lemma_sane_arena_defined, lemma_sane_exp_dim_pos};
use crate::pilout_info::FIELD_EXTENSION;

verus! {

broadcast use vstd::std_specs::hash::group_hash_axioms;

/// The cache holds, for each arena index it knows, the degree of that entry.
pub open spec fn cache_ok(cache: Map<usize, i64>, av: Seq<ExprView>, im: Seq<usize>) -> bool {
    forall|k: usize| #[trigger] cache.contains_key(k) ==> (k as int) < av.len() && cache[k] as int == clamp_deg(
        exp_degree(av, im, k as int),
    )
}

/// Every degree `a` holds is still in `b`, unchanged.
pub open spec fn cache_kept(a: Map<usize, i64>, b: Map<usize, i64>) -> bool {
    forall|k: usize| #[trigger] a.contains_key(k) ==> b.contains_key(k) && b[k] == a[k]
}

/// Degree of a child (arena reference or inline node).
fn cached_child_deg(
    expressions: &[Expression],
    c: &ExprChild,
    im_exps: &[usize],
    cache_values: bool,
    degree_cache: &mut HashMap<usize, i64>,
    Ghost(bound): Ghost<nat>,
) -> (d: i64)
    requires
        arena_wf(arena_view(expressions@)),
        forall|j: int| #[trigger] child_refers_to(c@, j) ==> 0 <= j < expressions@.len() && canon_rank(
            arena_view(expressions@),
        )[j] < bound,
        crate::expression::child_well_shaped(c@),
        deg_ok_child(arena_view(expressions@), canon_rank(arena_view(expressions@)), im_exps@, c@, bound),
        cache_values ==> cache_ok(old(degree_cache)@, arena_view(expressions@), im_exps@),
    ensures
        d == clamp_deg(deg_child(arena_view(expressions@), canon_rank(arena_view(expressions@)), im_exps@, c@, bound)),
        cache_values ==> cache_ok(final(degree_cache)@, arena_view(expressions@), im_exps@),
        !cache_values ==> final(degree_cache)@ == old(degree_cache)@,
        cache_kept(old(degree_cache)@, final(degree_cache)@),
    decreases bound, child_height(c@), 2nat,
{
    let ghost av = arena_view(expressions@);
    let ghost rank = canon_rank(av);
    match c {
        ExprChild::Id(id) => {
            let j = *id;
            assert(child_refers_to(c@, j as int));
            proof {
                assert(av[j as int] == expressions@[j as int]@);
            }
            calc_exp_deg_rec(expressions, j, im_exps, cache_values, degree_cache)
        },
        ExprChild::Inline(b) => {
            proof {
                assert forall|k: int| #[trigger] refers_to(b@, k) implies 0 <= k < expressions@.len() && rank[k] < bound by {
                    assert(child_refers_to(c@, k));
                }
            }
            node_deg(expressions, &**b, im_exps, cache_values, degree_cache, Ghost(bound))
        },
    }
}

/// Degree of a node (arena entry or inline), reading and filling the cache
/// for arena references.
fn node_deg(
    expressions: &[Expression],
    e: &Expression,
    im_exps: &[usize],
    cache_values: bool,
    degree_cache: &mut HashMap<usize, i64>,
    Ghost(bound): Ghost<nat>,
) -> (d: i64)
    requires
        arena_wf(arena_view(expressions@)),
        refs_below(arena_view(expressions@), canon_rank(arena_view(expressions@)), e@, bound),
        well_shaped(e@),
        deg_ok(arena_view(expressions@), canon_rank(arena_view(expressions@)), im_exps@, e@, bound),
        cache_values ==> cache_ok(old(degree_cache)@, arena_view(expressions@), im_exps@),
    ensures
        d == clamp_deg(deg_expr(arena_view(expressions@), canon_rank(arena_view(expressions@)), im_exps@, e@, bound)),
        cache_values ==> cache_ok(final(degree_cache)@, arena_view(expressions@), im_exps@),
        !cache_values ==> final(degree_cache)@ == old(degree_cache)@,
        cache_kept(old(degree_cache)@, final(degree_cache)@),
    decreases bound, height(e@), 1nat,
{
    let ghost av = arena_view(expressions@);
    let ghost rank = canon_rank(av);
    proof {
        assert(ranked(av, rank));
        lemma_children_view(e.values@);
        lemma_node_pointwise(e@);
    }
    match e.op {
        ExprOp::Exp => {
            let id = match e.id {
                Some(i) => i,
                None => 0,
            };
            if slice_contains(im_exps, id) {
                return 1;
            }
            assert(refers_to(e@, id as int));
            proof {
                assert(av[id as int] == expressions@[id as int]@);
            }
            calc_exp_deg_rec(expressions, id, im_exps, cache_values, degree_cache)
        },
        ExprOp::Const | ExprOp::Cm | ExprOp::Custom => 1,
        ExprOp::Zi => {
            match e.boundary {
                Some(BoundaryKind::EveryRow) => 0,
                _ => 1,
            }
        },
        ExprOp::Neg => {
            proof {
                lemma_child_shaped(e@, 0);
                assert forall|k: int| #[trigger] child_refers_to(e.values@[0]@, k) implies 0 <= k < expressions@.len()
                    && rank[k] < bound by {
                    lemma_child_refs(e@, 0, k);
                }
                assert(child_height(e@.values[0]) < height(e@));
            }
            cached_child_deg(expressions, &e.values[0], im_exps, cache_values, degree_cache, Ghost(bound))
        },
        ExprOp::Add | ExprOp::Sub | ExprOp::Mul => {
            proof {
                lemma_child_shaped(e@, 0);
                lemma_child_shaped(e@, 1);
                assert forall|k: int| #[trigger] child_refers_to(e.values@[0]@, k) implies 0 <= k < expressions@.len()
                    && rank[k] < bound by {
                    lemma_child_refs(e@, 0, k);
                }
                assert forall|k: int| #[trigger] child_refers_to(e.values@[1]@, k) implies 0 <= k < expressions@.len()
                    && rank[k] < bound by {
                    lemma_child_refs(e@, 1, k);
                }
                lemma_deg_child_nonneg(av, rank, im_exps@, e@.values[0], bound);
                lemma_deg_child_nonneg(av, rank, im_exps@, e@.values[1], bound);
                assert(child_height(e@.values[0]) < height(e@));
                assert(child_height(e@.values[1]) < height(e@));
            }
            let l = cached_child_deg(expressions, &e.values[0], im_exps, cache_values, degree_cache, Ghost(bound));
            let r = cached_child_deg(expressions, &e.values[1], im_exps, cache_values, degree_cache, Ghost(bound));
            match e.op {
                ExprOp::Mul => {
                    let s: i128 = l as i128 + r as i128;
                    if s > i64::MAX as i128 {
                        i64::MAX
                    } else {
                        s as i64
                    }
                },
                _ => if l >= r {
                    l
                } else {
                    r
                },
            }
        },
        _ => 0,
    }
}

/// Degree of arena entry `exp_idx`, through the cache.
fn calc_exp_deg_rec(
    expressions: &[Expression],
    exp_idx: usize,
    im_exps: &[usize],
    cache_values: bool,
    degree_cache: &mut HashMap<usize, i64>,
) -> (d: i64)
    requires
        arena_wf(arena_view(expressions@)),
        exp_idx < expressions@.len(),
        exp_degree_ok(arena_view(expressions@), im_exps@, exp_idx as int),
        cache_values ==> cache_ok(old(degree_cache)@, arena_view(expressions@), im_exps@),
    ensures
        d == clamp_deg(exp_degree(arena_view(expressions@), im_exps@, exp_idx as int)),
        cache_values ==> cache_ok(final(degree_cache)@, arena_view(expressions@), im_exps@),
        !cache_values ==> final(degree_cache)@ == old(degree_cache)@,
        cache_kept(old(degree_cache)@, final(degree_cache)@),
        cache_values && old(degree_cache)@.contains_key(exp_idx) ==> final(degree_cache)@ == old(degree_cache)@,
    decreases canon_rank(arena_view(expressions@))[exp_idx as int], height(arena_view(expressions@)[exp_idx as int]) + 1, 0nat,
{
    let ghost av = arena_view(expressions@);
    let ghost rank = canon_rank(av);
    proof {
        assert(ranked(av, rank));
    }
    if cache_values {
        match degree_cache.get(&exp_idx) {
            Some(v) => {
                return *v;
            },
            None => {},
        }
    }
    proof {
        assert(av[exp_idx as int] == expressions@[exp_idx as int]@);
        assert(well_shaped(av[exp_idx as int]));
    }
    let deg = node_deg(expressions, &expressions[exp_idx], im_exps, cache_values, degree_cache, Ghost(rank[exp_idx as int]));
    if cache_values {
        degree_cache.insert(exp_idx, deg);
    }
    deg
}

/// Polynomial degree of arena entry `exp_idx`, treating references to the
/// expressions in `im_exps` as degree 1 (capped at `i64::MAX`). With
/// `cache_values`, degrees are looked up in and added to `degree_cache`,
/// which must hold degrees computed with the same `im_exps`.
pub fn calculate_exp_deg(
    expressions: &[Expression],
    exp_idx: usize,
    im_exps: &[usize],
    cache_values: bool,
    degree_cache: &mut HashMap<usize, i64>,
) -> (d: i64)
    requires
        arena_wf(arena_view(expressions@)),
        exp_idx < expressions@.len(),
        exp_degree_ok(arena_view(expressions@), im_exps@, exp_idx as int),
        cache_values ==> cache_ok(old(degree_cache)@, arena_view(expressions@), im_exps@),
    ensures
        d == clamp_deg(exp_degree(arena_view(expressions@), im_exps@, exp_idx as int)),
        cache_values ==> cache_ok(final(degree_cache)@, arena_view(expressions@), im_exps@),
        !cache_values ==> final(degree_cache)@ == old(degree_cache)@,
        cache_kept(old(degree_cache)@, final(degree_cache)@),
        cache_values ==> final(degree_cache)@.contains_key(exp_idx),
        cache_values && old(degree_cache)@.contains_key(exp_idx) ==> final(degree_cache)@ == old(degree_cache)@
            && d == old(degree_cache)@[exp_idx],
{
    let d = calc_exp_deg_rec(expressions, exp_idx, im_exps, cache_values, degree_cache);
    if cache_values {
        degree_cache.insert(exp_idx, d);
    }
    d
}


// ---------------------------------------------------------------------------
// Search for intermediate polynomials
// ---------------------------------------------------------------------------

/// Memo of the search: for a set of already chosen intermediate polynomials
/// (taken as a multiset), the outcome last recorded for it.
pub type MemoView = Map<(usize, Multiset<usize>), (Option<Seq<usize>>, int)>;

/// `true` for the operations the search descends into.
pub open spec fn composite(op: ExprOp) -> bool {
    op == ExprOp::Add || op == ExprOp::Mul || op == ExprOp::Sub || op == ExprOp::Exp
}

/// The node a child denotes in arena `av`.
pub open spec fn child_node(av: Seq<ExprView>, c: ChildView) -> ExprView {
    crate::helpers::resolve_view(av, c)
}

/// Outcome of the search on child `k` of `parent`: the chosen set (`None`
/// when the child cannot meet `md`), the degree reached, the memo and the
/// largest degree met above a bound.
pub open spec fn im_child(
    av: Seq<ExprView>,
    rank: Seq<nat>,
    parent: ExprView,
    k: int,
    bound: nat,
    im: Seq<usize>,
    md: int,
    am: int,
    memo: MemoView,
    amd: int,
) -> (Option<Seq<usize>>, int, MemoView, int)
    decreases bound, parent, 1int, 0int,
{
    if !(0 <= k < parent.values.len()) {
        (None, -1, memo, amd)
    } else {
        match parent.values[k] {
            ChildView::Id(j) => if j < av.len() && rank.len() == av.len() && rank[j as int] < bound {
                im_node(av, rank, av[j as int], rank[j as int], im, md, am, memo, amd)
            } else {
                (None, -1, memo, amd)
            },
            ChildView::Inline(b) => im_node(av, rank, *b, bound, im, md, am, memo, amd),
        }
    }
}

/// The search over the first `k` children of an addition or subtraction,
/// threading the chosen set from child to child.
pub open spec fn im_children(
    av: Seq<ExprView>,
    rank: Seq<nat>,
    e: ExprView,
    k: int,
    bound: nat,
    im: Seq<usize>,
    md: int,
    am: int,
    memo: MemoView,
    amd: int,
) -> (Option<Seq<usize>>, int, MemoView, int)
    decreases bound, e, 1int, k,
{
    if k <= 0 || k > e.values.len() {
        (Some(im), 0, memo, amd)
    } else {
        let (p, d, m1, a1) = im_children(av, rank, e, k - 1, bound, im, md, am, memo, amd);
        match p {
            None => (None, -1, m1, a1),
            Some(cur) => {
                let (p2, d2, m2, a2) = im_child(av, rank, e, k - 1, bound, cur, md, am, m1, a1);
                match p2 {
                    None => (None, -1, m2, a2),
                    Some(c2) => (Some(c2), if d2 > d { d2 } else { d }, m2, a2),
                }
            },
        }
    }
}

/// The search over the splits `l + r = md` of a multiplication's degree,
/// from `l` on, keeping the smallest set found so far.
pub open spec fn im_mul_loop(
    av: Seq<ExprView>,
    rank: Seq<nat>,
    e: ExprView,
    l: int,
    bound: nat,
    im: Seq<usize>,
    md: int,
    am: int,
    eb: Option<Seq<usize>>,
    ed: int,
    memo: MemoView,
    amd: int,
) -> (Option<Seq<usize>>, int, MemoView, int)
    decreases bound, e, 1int, md + 1 - l,
{
    if l > md || l < 0 {
        (eb, ed, memo, amd)
    } else {
        let r = md - l;
        let (e1, d1, m1, a1) = im_child(av, rank, e, 0, bound, im, l, am, memo, amd);
        match e1 {
            None => im_mul_loop(av, rank, e, l + 1, bound, im, md, am, eb, ed, m1, a1),
            Some(e1v) => {
                let (e2, d2, m2, a2) = im_child(av, rank, e, 1, bound, e1v, r, am, m1, a1);
                match e2 {
                    None => im_mul_loop(av, rank, e, l + 1, bound, im, md, am, eb, ed, m2, a2),
                    Some(e2v) => {
                        let rep = eb is None || e2v.len() < eb.unwrap().len();
                        let eb2 = if rep { Some(e2v) } else { eb };
                        let ed2 = if rep { d1 + d2 } else { ed };
                        if e2v.len() == im.len() {
                            (eb2, ed2, m2, a2)
                        } else {
                            im_mul_loop(av, rank, e, l + 1, bound, im, md, am, eb2, ed2, m2, a2)
                        }
                    },
                }
            },
        }
    }
}

/// The search on node `e` with the chosen set `im` and degree bound `md`
/// (`am` is the bound the search started with).
pub open spec fn im_node(
    av: Seq<ExprView>,
    rank: Seq<nat>,
    e: ExprView,
    bound: nat,
    im: Seq<usize>,
    md: int,
    am: int,
    memo: MemoView,
    amd: int,
) -> (Option<Seq<usize>>, int, MemoView, int)
    decreases bound, e, 2int, 0int,
{
    match e.op {
        ExprOp::Add | ExprOp::Sub => im_children(av, rank, e, e.values.len() as int, bound, im, md, am, memo, amd),
        ExprOp::Mul => {
            if e.values.len() < 2 {
                (None, -1, memo, amd)
            } else {
                let l = child_node(av, e.values[0]);
                let r = child_node(av, e.values[1]);
                if !composite(l.op) && l.exp_deg == 0 {
                    im_child(av, rank, e, 1, bound, im, md, am, memo, amd)
                } else if !composite(r.op) && r.exp_deg == 0 {
                    im_child(av, rank, e, 0, bound, im, md, am, memo, amd)
                } else if 0 <= e.exp_deg <= md {
                    (Some(im), e.exp_deg as int, memo, amd)
                } else {
                    im_mul_loop(av, rank, e, 0, bound, im, md, am, None, -1, memo, amd)
                }
            }
        },
        ExprOp::Exp => {
            if md < 1 {
                (None, -1, memo, amd)
            } else {
                let id = exp_target(e);
                if im.contains(id as usize) {
                    (Some(im), 1, memo, amd)
                } else {
                    let key = (id as usize, im.to_multiset());
                    let (p, d, m2, a2) = if memo.contains_key(key) {
                        (memo[key].0, memo[key].1, memo, amd)
                    } else if 0 <= id < av.len() && rank.len() == av.len() && rank[id] < bound {
                        im_node(av, rank, av[id], rank[id], im, am, am, memo, amd)
                    } else {
                        (None, -1, memo, amd)
                    };
                    match p {
                        None => (None, -1, m2, a2),
                        Some(ev) => if d > md {
                            (
                                Some(if ev.contains(id as usize) { ev } else { ev.push(id as usize) }),
                                1,
                                m2,
                                if d > a2 { d } else { a2 },
                            )
                        } else {
                            (Some(ev), d, m2.insert(key, (Some(ev), d)), a2)
                        },
                    }
                }
            }
        },
        _ => {
            if e.exp_deg == 0 {
                (Some(im), 0, memo, amd)
            } else if md < 1 {
                (None, -1, memo, amd)
            } else {
                (Some(im), 1, memo, amd)
            }
        },
    }
}


// ---------------------------------------------------------------------------
// The memo
// ---------------------------------------------------------------------------

/// A recorded outcome of the search, for a sorted set of chosen polynomials.
pub struct MemoEntry {
    /// The expression the outcome is for.
    pub id: usize,
    pub key: Vec<usize>,
    pub pols: Option<Vec<usize>>,
    pub deg: i64,
}

pub open spec fn opt_ids(o: Option<Vec<usize>>) -> Option<Seq<usize>> {
    match o {
        Some(v) => Some(v@),
        None => None,
    }
}

/// The memo a list of entries stands for (a later entry wins).
pub open spec fn memo_view(s: Seq<MemoEntry>) -> MemoView
    decreases s.len(),
{
    if s.len() == 0 {
        Map::empty()
    } else {
        memo_view(s.drop_last()).insert((s.last().id, s.last().key@.to_multiset()), (opt_ids(s.last().pols), s.last().deg as int))
    }
}

pub open spec fn leq_usize() -> spec_fn(usize, usize) -> bool {
    |a: usize, b: usize| a <= b
}

/// Every key is sorted.
pub open spec fn memo_sorted(s: Seq<MemoEntry>) -> bool {
    forall|i: int| 0 <= i < s.len() ==> vstd::relations::sorted_by(#[trigger] s[i].key@, leq_usize())
}

/// A list of distinct arena indices below `n`.
pub open spec fn ids_ok(s: Seq<usize>, n: int) -> bool {
    &&& s.no_duplicates()
    &&& forall|i: int| 0 <= i < s.len() ==> (#[trigger] s[i] as int) < n
}

/// Every recorded outcome is a list of distinct indices below `n` whose
/// degree lies in `[0, am]`.
pub open spec fn memo_ok(m: MemoView, am: int, n: int) -> bool {
    forall|k: (usize, Multiset<usize>)| #[trigger] m.contains_key(k) ==> m[k].0 is Some && 0 <= m[k].1 <= am && ids_ok(
        m[k].0.unwrap(),
        n,
    )
}

proof fn lemma_leq_total()
    ensures
        vstd::relations::total_ordering(leq_usize()),
{
}

proof fn lemma_memo_last(s: Seq<MemoEntry>, i: int, k: (usize, Multiset<usize>))
    requires
        0 <= i < s.len(),
        (s[i].id, s[i].key@.to_multiset()) == k,
        forall|j: int| i < j < s.len() ==> ((#[trigger] s[j]).id, s[j].key@.to_multiset()) != k,
    ensures
        memo_view(s).contains_key(k),
        memo_view(s)[k] == (opt_ids(s[i].pols), s[i].deg as int),
    decreases s.len(),
{
    if i < s.len() - 1 {
        assert(s.last() == s[s.len() - 1]);
        lemma_memo_last(s.drop_last(), i, k);
    }
}

proof fn lemma_memo_absent(s: Seq<MemoEntry>, k: (usize, Multiset<usize>))
    requires
        forall|j: int| 0 <= j < s.len() ==> ((#[trigger] s[j]).id, s[j].key@.to_multiset()) != k,
    ensures
        !memo_view(s).contains_key(k),
    decreases s.len(),
{
    if s.len() > 0 {
        assert(s.last() == s[s.len() - 1]);
        lemma_memo_absent(s.drop_last(), k);
    }
}

/// The entries of `v`, sorted.
fn sorted_ids(v: &[usize]) -> (r: Vec<usize>)
    ensures
        vstd::relations::sorted_by(r@, leq_usize()),
        r@.to_multiset() == v@.to_multiset(),
{
    broadcast use vstd::seq_lib::group_to_multiset_ensures;
    let mut r: Vec<usize> = Vec::new();
    let mut i: usize = 0;
    while i < v.len()
        invariant
            i <= v@.len(),
            vstd::relations::sorted_by(r@, leq_usize()),
            r@.to_multiset() == v@.subrange(0, i as int).to_multiset(),
        decreases v.len() - i,
    {
        let x = v[i];
        let mut p: usize = 0;
        while p < r.len() && r[p] <= x
            invariant
                p <= r@.len(),
                forall|k: int| 0 <= k < p ==> r@[k] <= x,
            decreases r.len() - p,
        {
            p = p + 1;
        }
        let ghost r0 = r@;
        r.insert(p, x);
        proof {
            assert(r@ == r0.insert(p as int, x));
            assert forall|a: int, b: int| 0 <= a < b < r@.len() implies #[trigger] leq_usize()(r@[a], r@[b]) by {
                if b < p {
                    assert(leq_usize()(r0[a], r0[b]));
                } else if a < p && b == p {
                } else if a < p && b > p {
                    assert(leq_usize()(r0[a], r0[b - 1]));
                } else if a == p {
                    assert(r0[p as int] > x);
                    if b - 1 > p {
                        assert(leq_usize()(r0[p as int], r0[b - 1]));
                    }
                } else {
                    assert(leq_usize()(r0[a - 1], r0[b - 1]));
                }
            }
            assert(v@.subrange(0, i as int + 1) =~= v@.subrange(0, i as int).push(x));
            vstd::seq_lib::to_multiset_insert(r0, p as int, x);
            vstd::seq_lib::to_multiset_build(v@.subrange(0, i as int), x);
            assert(r@.to_multiset() =~= r0.to_multiset().insert(x));
            assert(v@.subrange(0, i as int + 1).to_multiset() =~= v@.subrange(0, i as int).to_multiset().insert(x));
        }
        i = i + 1;
    }
    proof {
        assert(v@.subrange(0, v@.len() as int) =~= v@);
    }
    r
}

fn ids_equal(a: &Vec<usize>, b: &Vec<usize>) -> (r: bool)
    ensures
        r == (a@ == b@),
{
    if a.len() != b.len() {
        return false;
    }
    let mut i: usize = 0;
    while i < a.len()
        invariant
            a@.len() == b@.len(),
            i <= a@.len(),
            forall|k: int| 0 <= k < i ==> a@[k] == b@[k],
        decreases a.len() - i,
    {
        if a[i] != b[i] {
            return false;
        }
        i = i + 1;
    }
    assert(a@ =~= b@);
    true
}

fn copy_ids(v: &[usize]) -> (r: Vec<usize>)
    ensures
        r@ == v@,
{
    let mut r: Vec<usize> = Vec::new();
    let mut i: usize = 0;
    while i < v.len()
        invariant
            i <= v@.len(),
            r@ == v@.subrange(0, i as int),
        decreases v.len() - i,
    {
        r.push(v[i]);
        proof {
            assert(r@ =~= v@.subrange(0, i as int + 1));
        }
        i = i + 1;
    }
    proof {
        assert(r@ =~= v@);
    }
    r
}

/// The last entry recorded for expression `id` and the (sorted) key, if any.
fn memo_find(memo: &Vec<MemoEntry>, id: usize, key: &Vec<usize>) -> (r: Option<usize>)
    requires
        memo_sorted(memo@),
        vstd::relations::sorted_by(key@, leq_usize()),
    ensures
        match r {
            Some(i) => i < memo@.len() && memo_view(memo@).contains_key((id, key@.to_multiset())) && memo_view(memo@)[(id, key@.to_multiset())]
                == (opt_ids(memo@[i as int].pols), memo@[i as int].deg as int),
            None => !memo_view(memo@).contains_key((id, key@.to_multiset())),
        },
{
    let mut i: usize = memo.len();
    proof {
        lemma_leq_total();
    }
    while i > 0
        invariant
            i <= memo@.len(),
            memo_sorted(memo@),
            vstd::relations::sorted_by(key@, leq_usize()),
            vstd::relations::total_ordering(leq_usize()),
            forall|j: int| i <= j < memo@.len() ==> ((#[trigger] memo@[j]).id, memo@[j].key@.to_multiset()) != (id, key@.to_multiset()),
        decreases i,
    {
        let j = i - 1;
        if memo[j].id == id && ids_equal(&memo[j].key, key) {
            proof {
                lemma_memo_last(memo@, j as int, (id, key@.to_multiset()));
            }
            return Some(j);
        }
        proof {
            if memo@[j as int].id == id && memo@[j as int].key@.to_multiset() == key@.to_multiset() {
                vstd::seq_lib::lemma_sorted_unique(memo@[j as int].key@, key@, leq_usize());
            }
        }
        i = j;
    }
    proof {
        lemma_memo_absent(memo@, (id, key@.to_multiset()));
    }
    None
}


fn copy_opt_ids(o: &Option<Vec<usize>>) -> (r: Option<Vec<usize>>)
    ensures
        opt_ids(r) == opt_ids(*o),
{
    match o {
        Some(v) => Some(copy_ids(v.as_slice())),
        None => None,
    }
}

/// `true` for the operations the search descends into.
fn is_composite(op: &ExprOp) -> (b: bool)
    ensures
        b == composite(*op),
{
    match op {
        ExprOp::Add | ExprOp::Mul | ExprOp::Sub | ExprOp::Exp => true,
        _ => false,
    }
}

/// What the search functions require of the memo and the bounds.
pub open spec fn search_ok(md: int, am: int, memo: Seq<MemoEntry>, amd: int, n: int) -> bool {
    &&& 0 <= md <= am <= i64::MAX
    &&& am < usize::MAX
    &&& memo_sorted(memo)
    &&& memo_ok(memo_view(memo), am, n)
    &&& 0 <= amd <= am
}

/// What a search step ensures of its outcome.
pub open spec fn outcome_ok(p: Option<Seq<usize>>, d: int, md: int, n: int) -> bool {
    &&& p is None ==> d == -1
    &&& p is Some ==> 0 <= d <= md && ids_ok(p.unwrap(), n)
}

/// The search on child `k` of `parent`.
fn im_child_exec(
    expressions: &[Expression],
    parent: &Expression,
    k: usize,
    im: &[usize],
    md: usize,
    am: usize,
    amd: &mut i64,
    memo: &mut Vec<MemoEntry>,
    Ghost(bound): Ghost<nat>,
) -> (r: (Option<Vec<usize>>, i64))
    requires
        arena_wf(arena_view(expressions@)),
        refs_below(arena_view(expressions@), canon_rank(arena_view(expressions@)), parent@, bound),
        well_shaped(parent@),
        k < parent@.values.len(),
        ids_ok(im@, expressions@.len() as int),
        search_ok(md as int, am as int, old(memo)@, *old(amd) as int, expressions@.len() as int),
    ensures
        (opt_ids(r.0), r.1 as int, memo_view(final(memo)@), *final(amd) as int) == im_child(
            arena_view(expressions@),
            canon_rank(arena_view(expressions@)),
            parent@,
            k as int,
            bound,
            im@,
            md as int,
            am as int,
            memo_view(old(memo)@),
            *old(amd) as int,
        ),
        search_ok(md as int, am as int, final(memo)@, *final(amd) as int, expressions@.len() as int),
        outcome_ok(opt_ids(r.0), r.1 as int, md as int, expressions@.len() as int),
    decreases bound, parent@, 1int, 0int,
{
    let ghost av = arena_view(expressions@);
    let ghost rank = canon_rank(av);
    proof {
        assert(ranked(av, rank));
        lemma_children_view(parent.values@);
        lemma_node_pointwise(parent@);
    }
    match &parent.values[k] {
        ExprChild::Id(j) => {
            let j = *j;
            proof {
                assert(child_refers_to(parent@.values[k as int], j as int));
                lemma_child_refs(parent@, k as int, j as int);
                assert(av[j as int] == expressions@[j as int]@);
                assert forall|i: int| #[trigger] refers_to(av[j as int], i) implies 0 <= i < av.len() && rank[i] < rank[j as int] by {}
            }
            im_node_exec(expressions, &expressions[j], im, md, am, amd, memo, Ghost(rank[j as int]))
        },
        ExprChild::Inline(b) => {
            proof {
                lemma_child_shaped(parent@, k as int);
                assert forall|i: int| #[trigger] refers_to(b@, i) implies 0 <= i < av.len() && rank[i] < bound by {
                    assert(child_refers_to(parent@.values[k as int], i));
                    lemma_child_refs(parent@, k as int, i);
                }
                assert(parent@.values[k as int] == ChildView::Inline(Box::new(b@)));
            }
            im_node_exec(expressions, &**b, im, md, am, amd, memo, Ghost(bound))
        },
    }
}

/// The search on node `e`: the set of sub-expressions to commit (extending
/// `im`) so that `e` has degree at most `md`, and the degree reached.
fn im_node_exec(
    expressions: &[Expression],
    e: &Expression,
    im: &[usize],
    md: usize,
    am: usize,
    amd: &mut i64,
    memo: &mut Vec<MemoEntry>,
    Ghost(bound): Ghost<nat>,
) -> (r: (Option<Vec<usize>>, i64))
    requires
        arena_wf(arena_view(expressions@)),
        refs_below(arena_view(expressions@), canon_rank(arena_view(expressions@)), e@, bound),
        well_shaped(e@),
        ids_ok(im@, expressions@.len() as int),
        search_ok(md as int, am as int, old(memo)@, *old(amd) as int, expressions@.len() as int),
    ensures
        (opt_ids(r.0), r.1 as int, memo_view(final(memo)@), *final(amd) as int) == im_node(
            arena_view(expressions@),
            canon_rank(arena_view(expressions@)),
            e@,
            bound,
            im@,
            md as int,
            am as int,
            memo_view(old(memo)@),
            *old(amd) as int,
        ),
        search_ok(md as int, am as int, final(memo)@, *final(amd) as int, expressions@.len() as int),
        outcome_ok(opt_ids(r.0), r.1 as int, md as int, expressions@.len() as int),
    decreases bound, e@, 2int, 0int,
{
    let ghost av = arena_view(expressions@);
    let ghost rank = canon_rank(av);
    let ghost memo0 = memo_view(memo@);
    let ghost amd0 = *amd as int;
    proof {
        assert(ranked(av, rank));
        lemma_children_view(e.values@);
        lemma_node_pointwise(e@);
    }
    match e.op {
        ExprOp::Add | ExprOp::Sub => {
            let n = e.values.len();
            let mut md_acc: i64 = 0;
            let mut cur: Vec<usize> = copy_ids(im);
            let mut k: usize = 0;
            while k < n
                invariant
                    n == e@.values.len(),
                    k <= n,
                    av == arena_view(expressions@),
                    rank == canon_rank(av),
                    arena_wf(av),
                    refs_below(av, rank, e@, bound),
                    well_shaped(e@),
                    e.op == ExprOp::Add || e.op == ExprOp::Sub,
                    memo0 == memo_view(old(memo)@),
                    amd0 == *old(amd) as int,
                    search_ok(md as int, am as int, memo@, *amd as int, expressions@.len() as int),
                    0 <= md_acc <= md,
                    ids_ok(cur@, expressions@.len() as int),
                    ids_ok(im@, expressions@.len() as int),
                    (Some(cur@), md_acc as int, memo_view(memo@), *amd as int) == im_children(
                        av,
                        rank,
                        e@,
                        k as int,
                        bound,
                        im@,
                        md as int,
                        am as int,
                        memo0,
                        amd0,
                    ),
                decreases n - k,
            {
                let (p, d) = im_child_exec(expressions, e, k, cur.as_slice(), md, am, amd, memo, Ghost(bound));
                match p {
                    None => {
                        proof {
                            lemma_im_children_err(av, rank, e@, k as int + 1, n as int, bound, im@, md as int, am as int, memo0, amd0);
                        }
                        return (None, -1);
                    },
                    Some(c2) => {
                        cur = c2;
                        if d > md_acc {
                            md_acc = d;
                        }
                    },
                }
                k = k + 1;
            }
            proof {
                assert(search_ok(md as int, am as int, memo@, *amd as int, expressions@.len() as int));
                assert(im_node(av, rank, e@, bound, im@, md as int, am as int, memo0, amd0) == im_children(av, rank, e@, n as int, bound, im@, md as int, am as int, memo0, amd0));
            }
            (Some(cur), md_acc)
        },
        ExprOp::Mul => {
            proof {
                match e.values@[0] {
                    ExprChild::Id(j) => {
                        assert(child_refers_to(e@.values[0], j as int));
                        lemma_child_refs(e@, 0, j as int);
                    },
                    ExprChild::Inline(_) => {},
                }
                match e.values@[1] {
                    ExprChild::Id(j) => {
                        assert(child_refers_to(e@.values[1], j as int));
                        lemma_child_refs(e@, 1, j as int);
                    },
                    ExprChild::Inline(_) => {},
                }
            }
            let lhs = e.values[0].resolve(expressions);
            let rhs = e.values[1].resolve(expressions);
            proof {
                assert(lhs@ == child_node(av, e@.values[0]));
                assert(rhs@ == child_node(av, e@.values[1]));
            }
            if !is_composite(&lhs.op) && lhs.exp_deg == 0 {
                return im_child_exec(expressions, e, 1, im, md, am, amd, memo, Ghost(bound));
            }
            if !is_composite(&rhs.op) && rhs.exp_deg == 0 {
                return im_child_exec(expressions, e, 0, im, md, am, amd, memo, Ghost(bound));
            }
            if e.exp_deg >= 0 && (e.exp_deg as i128) <= (md as i128) {
                return (Some(copy_ids(im)), e.exp_deg);
            }
            let mut eb: Option<Vec<usize>> = None;
            let mut ed: i64 = -1;
            let mut l: usize = 0;
            while l <= md
                invariant
                    l <= md + 1,
                    av == arena_view(expressions@),
                    rank == canon_rank(av),
                    arena_wf(av),
                    refs_below(av, rank, e@, bound),
                    well_shaped(e@),
                    e@.values.len() >= 2,
                    e.op == ExprOp::Mul,
                    ids_ok(im@, expressions@.len() as int),
                    memo0 == memo_view(old(memo)@),
                    amd0 == *old(amd) as int,
                    search_ok(md as int, am as int, memo@, *amd as int, expressions@.len() as int),
                    outcome_ok(opt_ids(eb), ed as int, md as int, expressions@.len() as int),
                    im_mul_loop(av, rank, e@, l as int, bound, im@, md as int, am as int, opt_ids(eb), ed as int, memo_view(memo@), *amd as int)
                        == im_mul_loop(av, rank, e@, 0, bound, im@, md as int, am as int, None, -1, memo0, amd0),
                    im_node(av, rank, e@, bound, im@, md as int, am as int, memo0, amd0) == im_mul_loop(av, rank, e@, 0, bound, im@, md as int, am as int, None, -1, memo0, amd0),
                decreases md + 1 - l,
            {
                let ghost eb_l = opt_ids(eb);
                let ghost ed_l = ed as int;
                let ghost m_l = memo_view(memo@);
                let ghost a_l = *amd as int;
                let r = md - l;
                let (e1, d1) = im_child_exec(expressions, e, 0, im, l, am, amd, memo, Ghost(bound));
                match e1 {
                    None => {},
                    Some(e1v) => {
                        let (e2, d2) = im_child_exec(expressions, e, 1, e1v.as_slice(), r, am, amd, memo, Ghost(bound));
                        match e2 {
                            None => {},
                            Some(e2v) => {
                                let rep = match &eb {
                                    None => true,
                                    Some(prev) => e2v.len() < prev.len(),
                                };
                                let full = e2v.len() == im.len();
                                if rep {
                                    eb = Some(e2v);
                                    ed = d1 + d2;
                                }
                                proof {
                                    assert(im_mul_loop(av, rank, e@, l as int, bound, im@, md as int, am as int, eb_l, ed_l, m_l, a_l)
                                        == (if full { (opt_ids(eb), ed as int, memo_view(memo@), *amd as int) } else {
                                        im_mul_loop(av, rank, e@, l as int + 1, bound, im@, md as int, am as int, opt_ids(eb), ed as int, memo_view(memo@), *amd as int)
                                    }));
                                }
                                if full {
                                    return (eb, ed);
                                }
                            },
                        }
                    },
                }
                l = l + 1;
            }
            (eb, ed)
        },
        ExprOp::Exp => {
            if md < 1 {
                return (None, -1);
            }
            let id = match e.id {
                Some(i) => i,
                None => 0,
            };
            if slice_contains(im, id) {
                return (Some(copy_ids(im)), 1);
            }
            let key = sorted_ids(im);
            let (p, d) = match memo_find(memo, id, &key) {
                Some(i) => (copy_opt_ids(&memo[i].pols), memo[i].deg),
                None => {
                    assert(refers_to(e@, id as int));
                    proof {
                        assert(av[id as int] == expressions@[id as int]@);
                        assert forall|i: int| #[trigger] refers_to(av[id as int], i) implies 0 <= i < av.len() && rank[i]
                            < rank[id as int] by {}
                    }
                    im_node_exec(expressions, &expressions[id], im, am, am, amd, memo, Ghost(rank[id as int]))
                },
            };
            match p {
                None => (None, -1),
                Some(ev) => {
                    if d > md as i64 {
                        if d > *amd {
                            *amd = d;
                        }
                        let mut nv = ev;
                        let ghost ev0 = nv@;
                        if !slice_contains(nv.as_slice(), id) {
                            nv.push(id);
                            proof {
                                assert(refers_to(e@, id as int));
                                assert(nv@ == ev0.push(id));
                                assert forall|i: int, j: int| 0 <= i < nv@.len() && 0 <= j < nv@.len() && i != j implies nv@[i] != nv@[j] by {
                                    if i < ev0.len() && j < ev0.len() {
                                        assert(ev0[i] != ev0[j]);
                                    } else if i == ev0.len() {
                                        assert(!ev0.contains(id));
                                        assert(nv@[j] == ev0[j]);
                                    } else {
                                        assert(!ev0.contains(id));
                                        assert(nv@[i] == ev0[i]);
                                    }
                                }
                            }
                        }
                        (Some(nv), 1)
                    } else {
                        let stored = copy_ids(ev.as_slice());
                        let ghost mem_before = memo@;
                        let ghost kv = key@;
                        memo.push(MemoEntry { id, key, pols: Some(stored), deg: d });
                        proof {
                            assert(memo@.drop_last() =~= mem_before);
                            assert(memo_view(memo@) == memo_view(mem_before).insert((id, kv.to_multiset()), (Some(ev@), d as int)));
                            assert forall|k: (usize, Multiset<usize>)| #[trigger] memo_view(memo@).contains_key(k) implies memo_view(memo@)[k].0 is Some
                                && 0 <= memo_view(memo@)[k].1 <= am && ids_ok(memo_view(memo@)[k].0.unwrap(), expressions@.len() as int) by {
                                if k != (id, kv.to_multiset()) {
                                    assert(memo_view(mem_before).contains_key(k));
                                }
                            }
                            assert forall|i: int| 0 <= i < memo@.len() implies vstd::relations::sorted_by(#[trigger] memo@[i].key@, leq_usize()) by {
                                if i < mem_before.len() {
                                    assert(memo@[i] == mem_before[i]);
                                }
                            }
                        }
                        (Some(ev), d)
                    }
                },
            }
        },
        _ => {
            if e.exp_deg == 0 {
                (Some(copy_ids(im)), 0)
            } else if md < 1 {
                (None, -1)
            } else {
                (Some(copy_ids(im)), 1)
            }
        },
    }
}


proof fn lemma_im_children_err(
    av: Seq<ExprView>,
    rank: Seq<nat>,
    e: ExprView,
    k: int,
    n: int,
    bound: nat,
    im: Seq<usize>,
    md: int,
    am: int,
    memo: MemoView,
    amd: int,
)
    requires
        0 < k <= n <= e.values.len(),
        im_children(av, rank, e, k, bound, im, md, am, memo, amd).0 is None,
    ensures
        im_children(av, rank, e, n, bound, im, md, am, memo, amd) == im_children(av, rank, e, k, bound, im, md, am, memo, amd),
    decreases n - k,
{
    if k < n {
        lemma_im_children_err(av, rank, e, k, n - 1, bound, im, md, am, memo, amd);
    }
}


// ---------------------------------------------------------------------------
// Choosing the intermediate polynomials
// ---------------------------------------------------------------------------

/// The chosen set for degree bound `md` from entry `root`, and the degree of
/// the quotient polynomial it leaves (the constraint degree minus one).
pub open spec fn im_pols_spec(av: Seq<ExprView>, root: int, md: int) -> (Seq<usize>, int) {
    let rank = canon_rank(av);
    let (p, d, m, a) = im_node(av, rank, av[root], rank[root], Seq::empty(), md, md, Map::empty(), 0);
    let top = if d >= a { d } else { a };
    match p {
        Some(v) => (v, top - 1),
        None => (Seq::empty(), (if top >= 1 { top } else { 1 }) - 1),
    }
}

/// Sum of the dimensions of the listed entries.
pub open spec fn sum_dims(av: Seq<ExprView>, ids: Seq<usize>) -> int
    decreases ids.len(),
{
    if ids.len() == 0 {
        0
    } else {
        sum_dims(av, ids.drop_last()) + av[ids.last() as int].dim as int
    }
}

/// Base-field columns added: the quotient's columns and the intermediate
/// polynomials' columns.
pub open spec fn added_cols(av: Seq<ExprView>, ids: Seq<usize>, q_deg: int, q_dim: int) -> int {
    q_deg * q_dim + sum_dims(av, ids)
}

/// The largest dimension of an entry (0 for an empty arena).
pub open spec fn max_dim(av: Seq<ExprView>) -> int
    decreases av.len(),
{
    if av.len() == 0 {
        0
    } else {
        let m = max_dim(av.drop_last());
        if av.last().dim as int > m { av.last().dim as int } else { m }
    }
}

proof fn lemma_max_dim(av: Seq<ExprView>, i: int)
    requires
        0 <= i < av.len(),
    ensures
        av[i].dim <= max_dim(av),
    decreases av.len(),
{
    if i < av.len() - 1 {
        lemma_max_dim(av.drop_last(), i);
    }
}

proof fn lemma_sum_dims_bound(av: Seq<ExprView>, ids: Seq<usize>)
    requires
        forall|i: int| 0 <= i < ids.len() ==> (#[trigger] ids[i] as int) < av.len(),
    ensures
        0 <= sum_dims(av, ids) <= ids.len() * max_dim(av),
    decreases ids.len(),
{
    if ids.len() > 0 {
        lemma_sum_dims_bound(av, ids.drop_last());
        lemma_max_dim(av, ids.last() as int);
        assert(ids.len() * max_dim(av) == (ids.len() - 1) * max_dim(av) + max_dim(av)) by (nonlinear_arith);
    }
}

proof fn lemma_sum_dims_prefix(av: Seq<ExprView>, ids: Seq<usize>, k: int)
    requires
        0 <= k <= ids.len(),
    ensures
        0 <= sum_dims(av, ids.subrange(0, k)) <= sum_dims(av, ids),
    decreases ids.len(),
{
    if k < ids.len() {
        assert(ids.drop_last().subrange(0, k) =~= ids.subrange(0, k));
        lemma_sum_dims_prefix(av, ids.drop_last(), k);
    } else {
        assert(ids.subrange(0, k) =~= ids);
    }
    lemma_sum_dims_nonneg(av, ids.subrange(0, k));
}

proof fn lemma_sum_dims_nonneg(av: Seq<ExprView>, ids: Seq<usize>)
    ensures
        sum_dims(av, ids) >= 0,
    decreases ids.len(),
{
    if ids.len() > 0 {
        lemma_sum_dims_nonneg(av, ids.drop_last());
    }
}

/// A list of distinct indices below `n` has at most `n` entries.
proof fn lemma_ids_len(s: Seq<usize>, n: int)
    requires
        ids_ok(s, n),
        n >= 0,
    ensures
        s.len() <= n,
{
    let t = s.map_values(|x: usize| x as int);
    assert(t.no_duplicates()) by {
        assert forall|i: int, j: int| 0 <= i < t.len() && 0 <= j < t.len() && i != j implies t[i] != t[j] by {
            assert(s[i] != s[j]);
        }
    }
    t.unique_seq_to_set();
    vstd::set_lib::lemma_int_range(0, n);
    assert(t.to_set().subset_of(vstd::set_lib::set_int_range(0, n))) by {
        assert forall|x: int| t.to_set().contains(x) implies vstd::set_lib::set_int_range(0, n).contains(x) by {
            let i = choose|i: int| 0 <= i < t.len() && t[i] == x;
            assert((s[i] as int) < n);
        }
    }
    vstd::set_lib::lemma_len_subset(t.to_set(), vstd::set_lib::set_int_range(0, n));
}

/// Counts the base-field columns added by a choice: `q_deg * q_dim` for the
/// quotient plus the dimensions of the intermediate polynomials.
pub fn calculate_added_cols(max_deg: usize, expressions: &[Expression], im_exps: &[usize], q_deg: i64, q_dim: usize) -> (r: i64)
    requires
        forall|i: int| 0 <= i < im_exps@.len() ==> (#[trigger] im_exps@[i] as int) < expressions@.len(),
        q_dim <= i64::MAX,
        i64::MIN <= q_deg * q_dim <= i64::MAX,
        sum_dims(arena_view(expressions@), im_exps@) <= i64::MAX,
        q_deg * q_dim + sum_dims(arena_view(expressions@), im_exps@) <= i64::MAX,
    ensures
        r == added_cols(arena_view(expressions@), im_exps@, q_deg as int, q_dim as int),
{
    let ghost av = arena_view(expressions@);
    let q_cols: i64 = q_deg * (q_dim as i64);
    let mut im_cols: i64 = 0;
    let mut i: usize = 0;
    proof {
        lemma_sum_dims_nonneg(av, im_exps@);
        assert(im_exps@.subrange(0, 0) =~= Seq::<usize>::empty());
    }
    while i < im_exps.len()
        invariant
            i <= im_exps@.len(),
            av == arena_view(expressions@),
            forall|k: int| 0 <= k < im_exps@.len() ==> (#[trigger] im_exps@[k] as int) < expressions@.len(),
            sum_dims(av, im_exps@) <= i64::MAX,
            im_cols as int == sum_dims(av, im_exps@.subrange(0, i as int)),
        decreases im_exps.len() - i,
    {
        let id = im_exps[i];
        proof {
            let pre = im_exps@.subrange(0, i as int + 1);
            assert(pre.drop_last() =~= im_exps@.subrange(0, i as int));
            assert(av[id as int] == expressions@[id as int]@);
            assert(pre.last() == id);
            assert(sum_dims(av, pre) == im_cols + expressions@[id as int].dim);
            lemma_sum_dims_prefix(av, im_exps@, i as int + 1);
            lemma_sum_dims_nonneg(av, im_exps@.subrange(0, i as int));
        }
        im_cols = im_cols + expressions[id].dim as i64;
        i = i + 1;
    }
    proof {
        assert(im_exps@.subrange(0, im_exps@.len() as int) =~= im_exps@);
    }
    q_cols + im_cols
}

/// The choice of intermediate polynomials for degree bound `max_deg` from
/// entry `root_id`, and the quotient degree it leaves.
fn calculate_im_pols(expressions: &[Expression], root_id: usize, _c_exp: &Expression, max_deg: usize) -> (r: (
    Vec<usize>,
    i64,
))
    requires
        arena_wf(arena_view(expressions@)),
        root_id < expressions@.len(),
        1 <= max_deg < usize::MAX,
        max_deg <= i64::MAX,
    ensures
        (r.0@, r.1 as int) == im_pols_spec(arena_view(expressions@), root_id as int, max_deg as int),
        ids_ok(r.0@, expressions@.len() as int),
        -1 <= r.1 < max_deg,
{
    let ghost av = arena_view(expressions@);
    let ghost rank = canon_rank(av);
    let mut abs_max_d: i64 = 0;
    let mut memo: Vec<MemoEntry> = Vec::new();
    let empty: Vec<usize> = Vec::new();
    proof {
        assert(ranked(av, rank));
        assert(av[root_id as int] == expressions@[root_id as int]@);
        assert(memo_view(memo@) =~= Map::<(usize, Multiset<usize>), (Option<Seq<usize>>, int)>::empty());
        assert forall|i: int| #[trigger] refers_to(av[root_id as int], i) implies 0 <= i < av.len() && rank[i] < rank[root_id as int] by {}
    }
    let (result_pols, rd) = im_node_exec(expressions, &expressions[root_id], empty.as_slice(), max_deg, max_deg, &mut abs_max_d, &mut memo, Ghost(rank[root_id as int]));
    let top = if rd >= abs_max_d { rd } else { abs_max_d };
    match result_pols {
        Some(pols) => (pols, top - 1),
        None => (Vec::new(), (if top >= 1 { top } else { 1 }) - 1),
    }
}

/// Result of the search: the expressions to commit as intermediate
/// polynomials, and the quotient degree.
pub struct ImPolsResult {
    pub im_exps: Vec<usize>,
    pub q_deg: i64,
}

/// The greedy loop over degree bounds from 3 on, keeping the choice with the
/// fewest added columns.
pub open spec fn ip_loop(
    av: Seq<ExprView>,
    c: int,
    max_q: int,
    q_dim: int,
    d: int,
    im: Seq<usize>,
    q: int,
    added: int,
) -> (Seq<usize>, int)
    decreases max_q + 1 - d,
{
    if !(im.len() > 0 && d <= max_q) || d < 0 {
        (im, q)
    } else {
        let (imp, qp) = im_pols_spec(av, c, d);
        let na = added_cols(av, imp, qp, q_dim);
        let rep = if max_q > 0 { na < added } else { imp.len() == 0 };
        let im2 = if rep { imp } else { im };
        let q2 = if rep { qp } else { q };
        let a2 = if rep { na } else { added };
        if imp.len() == 0 {
            (im2, q2)
        } else {
            ip_loop(av, c, max_q, q_dim, d + 1, im2, q2, a2)
        }
    }
}

/// The choice the greedy search makes: start with degree bound 2, then try
/// 3, 4, ... up to `max_q`, keeping the choice with the fewest added columns.
pub open spec fn intermediate_spec(av: Seq<ExprView>, c: int, max_q: int, q_dim: int) -> (Seq<usize>, int) {
    let (im0, q0) = im_pols_spec(av, c, 2);
    ip_loop(av, c, max_q, q_dim, 3, im0, q0, added_cols(av, im0, q0, q_dim))
}

/// Degree bound `d` is tried by the search: bound 2 always, and a larger
/// bound up to `max_q` while every bound before it found a nonempty set.
pub open spec fn bound_tried(av: Seq<ExprView>, c: int, max_q: int, d: int) -> bool {
    d == 2 || (3 <= d <= max_q && forall|e: int| 2 <= e < d ==> (#[trigger] im_pols_spec(av, c, e)).0.len() > 0)
}

proof fn lemma_ip_loop_minimal(
    av: Seq<ExprView>,
    c: int,
    max_q: int,
    q_dim: int,
    d: int,
    im: Seq<usize>,
    q: int,
    added: int,
)
    requires
        d >= 3,
        added == added_cols(av, im, q, q_dim),
        forall|e: int| 2 <= e < d ==> added <= added_cols(av, (#[trigger] im_pols_spec(av, c, e)).0, im_pols_spec(av, c, e).1, q_dim),
        forall|e: int| 2 <= e < d - 1 ==> (#[trigger] im_pols_spec(av, c, e)).0.len() > 0,
        d >= 4 ==> im_pols_spec(av, c, d - 1).0.len() > 0,
        d == 3 ==> (im, q) == im_pols_spec(av, c, 2),
        exists|e: int| 2 <= e < d && (im, q) == #[trigger] im_pols_spec(av, c, e),
    ensures
        ({
            let (ri, rq) = ip_loop(av, c, max_q, q_dim, d, im, q, added);
            forall|e: int| 2 <= e && #[trigger] bound_tried(av, c, max_q, e) ==> added_cols(av, ri, rq, q_dim) <= added_cols(
                av,
                im_pols_spec(av, c, e).0,
                im_pols_spec(av, c, e).1,
                q_dim,
            )
        }),
    decreases max_q + 1 - d,
{
    let r = ip_loop(av, c, max_q, q_dim, d, im, q, added);
    if !(im.len() > 0 && d <= max_q) {
        assert(r == (im, q));
        let e0 = choose|e: int| 2 <= e < d && (im, q) == #[trigger] im_pols_spec(av, c, e);
        assert forall|e: int| 2 <= e && #[trigger] bound_tried(av, c, max_q, e) implies added_cols(av, r.0, r.1, q_dim) <= added_cols(
            av,
            im_pols_spec(av, c, e).0,
            im_pols_spec(av, c, e).1,
            q_dim,
        ) by {
            if e >= d {
                if d > max_q {
                } else {
                    assert(im_pols_spec(av, c, e0).0.len() > 0);
                }
            }
        }
    } else {
        let (imp, qp) = im_pols_spec(av, c, d);
        let na = added_cols(av, imp, qp, q_dim);
        assert(max_q > 0);
        let rep = na < added;
        let im2 = if rep { imp } else { im };
        let q2 = if rep { qp } else { q };
        let a2 = if rep { na } else { added };
        if imp.len() == 0 {
            assert(r == (im2, q2));
            assert forall|e: int| 2 <= e && #[trigger] bound_tried(av, c, max_q, e) implies added_cols(av, r.0, r.1, q_dim)
                <= added_cols(av, im_pols_spec(av, c, e).0, im_pols_spec(av, c, e).1, q_dim) by {
                if e > d {
                    assert(im_pols_spec(av, c, d).0.len() > 0);
                }
            }
        } else {
            assert(r == ip_loop(av, c, max_q, q_dim, d + 1, im2, q2, a2));
            if d == 3 {
                assert(im_pols_spec(av, c, 2).0.len() > 0);
            }
            assert forall|e: int| 2 <= e < d + 1 - 1 implies (#[trigger] im_pols_spec(av, c, e)).0.len() > 0 by {
                if e == d - 1 && d == 3 {
                    assert(im_pols_spec(av, c, 2).0.len() > 0);
                }
            }
            if rep {
                assert((im2, q2) == im_pols_spec(av, c, d));
            } else {
                let e0 = choose|e: int| 2 <= e < d && (im, q) == #[trigger] im_pols_spec(av, c, e);
                assert((im2, q2) == im_pols_spec(av, c, e0));
            }
            lemma_ip_loop_minimal(av, c, max_q, q_dim, d + 1, im2, q2, a2);
        }
    }
}

/// The search keeps the cheapest choice: the intermediate polynomials it
/// returns, with the quotient degree, add no more base-field columns
/// (`q_deg * q_dim` plus the dimensions of the chosen expressions) than the
/// choice made with any degree bound the search tried.
pub proof fn lemma_intermediate_minimal(av: Seq<ExprView>, c: int, max_q: int, q_dim: int, d: int)
    requires
        bound_tried(av, c, max_q, d),
    ensures
        ({
            let (im, q) = intermediate_spec(av, c, max_q, q_dim);
            added_cols(av, im, q, q_dim) <= added_cols(av, im_pols_spec(av, c, d).0, im_pols_spec(av, c, d).1, q_dim)
        }),
{
    let (im0, q0) = im_pols_spec(av, c, 2);
    assert((im0, q0) == im_pols_spec(av, c, 2));
    lemma_ip_loop_minimal(av, c, max_q, q_dim, 3, im0, q0, added_cols(av, im0, q0, q_dim));
    assert(bound_tried(av, c, max_q, d) && 2 <= d);
}

/// Searches degree bounds from 2 to `max_q_deg` for the set of intermediate
/// polynomials that adds the fewest base-field columns, and returns it with
/// the quotient degree.
pub fn calculate_intermediate_polynomials(
    expressions: &[Expression],
    c_exp_id: usize,
    max_q_deg: usize,
    q_dim: usize,
) -> (res: ImPolsResult)
    requires
        arena_wf(arena_view(expressions@)),
        c_exp_id < expressions@.len(),
        max_q_deg < i64::MAX,
        max_q_deg + 2 < usize::MAX,
        (max_q_deg as int + 2) * (q_dim as int) + (expressions@.len() as int) * max_dim(arena_view(expressions@)) <= i64::MAX,
    ensures
        (res.im_exps@, res.q_deg as int) == intermediate_spec(arena_view(expressions@), c_exp_id as int, max_q_deg as int, q_dim as int),
        forall|d: int|
            #[trigger] bound_tried(arena_view(expressions@), c_exp_id as int, max_q_deg as int, d) ==> added_cols(
                arena_view(expressions@),
                res.im_exps@,
                res.q_deg as int,
                q_dim as int,
            ) <= added_cols(
                arena_view(expressions@),
                im_pols_spec(arena_view(expressions@), c_exp_id as int, d).0,
                im_pols_spec(arena_view(expressions@), c_exp_id as int, d).1,
                q_dim as int,
            ),
{
    let ghost av = arena_view(expressions@);
    let ghost n = expressions@.len() as int;
    let c_exp = &expressions[c_exp_id];
    let mut d: usize = 2;
    proof {
        assert(0 <= max_dim(av)) by {
            if av.len() > 0 {
                lemma_max_dim(av, 0);
            }
        }
        assert(q_dim as int <= i64::MAX) by (nonlinear_arith)
            requires
                (max_q_deg as int + 2) * (q_dim as int) + (expressions@.len() as int) * max_dim(av) <= i64::MAX,
                0 <= max_dim(av),
        ;
    }
    let (mut im_exps, mut q_deg) = calculate_im_pols(expressions, c_exp_id, c_exp, d);
    proof {
        lemma_cols_fit(av, im_exps@, q_deg as int, q_dim as int, max_q_deg as int, 2);
    }
    let mut added_basefield_cols = calculate_added_cols(d, expressions, im_exps.as_slice(), q_deg, q_dim);
    d = d + 1;
    let mut stop = false;
    while !stop && im_exps.len() > 0 && d <= max_q_deg
        invariant
            av == arena_view(expressions@),
            arena_wf(av),
            c_exp_id < expressions@.len(),
            c_exp == &expressions[c_exp_id as int],
            n == expressions@.len(),
            3 <= d <= max_q_deg + 3,
            max_q_deg < i64::MAX,
            max_q_deg + 2 < usize::MAX,
            (max_q_deg as int + 2) * (q_dim as int) + n * max_dim(av) <= i64::MAX,
            !stop ==> ip_loop(av, c_exp_id as int, max_q_deg as int, q_dim as int, d as int, im_exps@, q_deg as int, added_basefield_cols as int)
                == intermediate_spec(av, c_exp_id as int, max_q_deg as int, q_dim as int),
            stop ==> (im_exps@, q_deg as int) == intermediate_spec(av, c_exp_id as int, max_q_deg as int, q_dim as int),
        decreases max_q_deg + 1 - d,
    {
        let (im_exps_p, q_deg_p) = calculate_im_pols(expressions, c_exp_id, c_exp, d);
        proof {
            lemma_cols_fit(av, im_exps_p@, q_deg_p as int, q_dim as int, max_q_deg as int, d as int);
        }
        let new_added = calculate_added_cols(d, expressions, im_exps_p.as_slice(), q_deg_p, q_dim);
        d = d + 1;
        let should_replace = if max_q_deg > 0 { new_added < added_basefield_cols } else { im_exps_p.len() == 0 };
        stop = im_exps_p.len() == 0;
        if should_replace {
            added_basefield_cols = new_added;
            im_exps = im_exps_p;
            q_deg = q_deg_p;
        }
    }
    proof {
        assert forall|dd: int| #[trigger] bound_tried(av, c_exp_id as int, max_q_deg as int, dd) implies added_cols(
            av,
            im_exps@,
            q_deg as int,
            q_dim as int,
        ) <= added_cols(av, im_pols_spec(av, c_exp_id as int, dd).0, im_pols_spec(av, c_exp_id as int, dd).1, q_dim as int) by {
            lemma_intermediate_minimal(av, c_exp_id as int, max_q_deg as int, q_dim as int, dd);
        }
    }
    ImPolsResult { im_exps, q_deg }
}

/// The added columns of a choice made with bound `d <= max_q + 2` fit an `i64`.
proof fn lemma_cols_fit(av: Seq<ExprView>, ids: Seq<usize>, q: int, q_dim: int, max_q: int, d: int)
    requires
        ids_ok(ids, av.len() as int),
        -1 <= q < d,
        2 <= d <= max_q + 2,
        0 <= q_dim,
        (max_q + 2) * q_dim + (av.len() as int) * max_dim(av) <= i64::MAX,
    ensures
        q_dim <= i64::MAX,
        i64::MIN <= q * q_dim <= i64::MAX,
        sum_dims(av, ids) <= i64::MAX,
        q * q_dim + sum_dims(av, ids) <= i64::MAX,
{
    lemma_ids_len(ids, av.len() as int);
    lemma_sum_dims_bound(av, ids);
    assert(0 <= max_dim(av)) by {
        if av.len() > 0 {
            lemma_max_dim(av, 0);
        }
    }
    assert(ids.len() * max_dim(av) <= av.len() * max_dim(av)) by (nonlinear_arith)
        requires
            ids.len() <= av.len(),
            0 <= max_dim(av),
    ;
    assert(q * q_dim <= (max_q + 2) * q_dim) by (nonlinear_arith)
        requires
            q < d,
            d <= max_q + 2,
            0 <= q_dim,
    ;
    assert(-q_dim <= q * q_dim) by (nonlinear_arith)
        requires
            -1 <= q,
            0 <= q_dim,
    ;
    assert(q_dim <= (max_q + 2) * q_dim) by (nonlinear_arith)
        requires
            2 <= max_q + 2,
            0 <= q_dim,
    ;
    assert(0 <= (av.len() as int) * max_dim(av)) by (nonlinear_arith)
        requires
            0 <= max_dim(av),
    ;
}


// ---------------------------------------------------------------------------
// Committing the chosen intermediate polynomials
// ---------------------------------------------------------------------------

/// An annotated entry keeps its operation and operands and stays annotated.
pub open spec fn settled(n: ExprView, o: ExprView) -> bool {
    &&& n.op == o.op
    &&& n.values == o.values
    &&& n.info_computed
}

/// Two entries carry the same commitment marks.
pub open spec fn same_marks(a: ExprView, b: ExprView) -> bool {
    a.im_pol == b.im_pol && a.pol_id == b.pol_id
}

/// Every entry of `im` below `n.len()` is marked as committed; the last
/// occurrence of an entry at position `t` carries column `n0 + t`; every
/// other entry of `o` keeps its marks.
pub open spec fn marked_as(o: Seq<ExprView>, n: Seq<ExprView>, im: Seq<usize>, k: int, n0: int) -> bool {
    &&& forall|t: int| 0 <= t < k ==> (#[trigger] n[im[t] as int]).im_pol
    &&& forall|t: int|
        0 <= t < k && (forall|u: int| t < u < k ==> im[u] != im[t]) ==> (#[trigger] n[im[t] as int]).pol_id == Some(
            (n0 + t) as usize,
        )
    &&& forall|i: int| 0 <= i < o.len() && (forall|u: int| 0 <= u < k ==> im[u] != i) ==> #[trigger] same_marks(o[i], n[i])
}

/// An entry without its commitment marks.
pub open spec fn unmarked(e: ExprView) -> ExprView {
    ExprView { im_pol: false, pol_id: None, ..e }
}

/// `b` has the shape of `a`, marks aside.
pub open spec fn same_shape(a: ExprView, b: ExprView) -> bool {
    entry_shape(unmarked(a), unmarked(b))
}

proof fn lemma_same_shape_trans(a: ExprView, b: ExprView, c: ExprView)
    requires
        same_shape(a, b),
        same_shape(b, c),
    ensures
        same_shape(a, c),
{
    lemma_entry_shape_trans(unmarked(a), unmarked(b), unmarked(c));
}

/// `n` grows from `o`: every entry keeps its shape (it may be marked as
/// committed), and every annotated entry stays settled.
pub open spec fn grows_from(o: Seq<ExprView>, n: Seq<ExprView>) -> bool {
    &&& n.len() >= o.len()
    &&& forall|i: int| 0 <= i < o.len() ==> #[trigger] same_shape(o[i], n[i])
    &&& forall|i: int| 0 <= i < o.len() && o[i].info_computed ==> #[trigger] settled(n[i], o[i])
}

proof fn lemma_grows_trans(a: Seq<ExprView>, b: Seq<ExprView>, c: Seq<ExprView>)
    requires
        grows_from(a, b),
        grows_from(b, c),
    ensures
        grows_from(a, c),
{
    assert forall|i: int| 0 <= i < a.len() && a[i].info_computed implies #[trigger] settled(c[i], a[i]) by {
        assert(settled(b[i], a[i]));
        assert(settled(c[i], b[i]));
    }
    assert forall|i: int| 0 <= i < a.len() implies #[trigger] same_shape(a[i], c[i]) by {
        assert(same_shape(a[i], b[i]));
        assert(same_shape(b[i], c[i]));
        lemma_same_shape_trans(a[i], b[i], c[i]);
    }
}

proof fn lemma_keeps_grows(a: Seq<ExprView>, b: Seq<ExprView>)
    requires
        keeps_annotations(a, b),
    ensures
        grows_from(a, b),
{
    assert forall|i: int| 0 <= i < a.len() && a[i].info_computed implies #[trigger] settled(b[i], a[i]) by {
        assert(kept(b[i], a[i]));
    }
    assert forall|i: int| 0 <= i < a.len() implies #[trigger] same_shape(a[i], b[i]) by {
        assert(entry_shape(a[i], b[i]));
    }
}

/// Entry `i` is an `exp` reference to entry `t`.
pub open spec fn ref_node(av: Seq<ExprView>, i: int, t: usize) -> bool {
    &&& 0 <= i < av.len()
    &&& av[i].op == ExprOp::Exp
    &&& av[i].id == Some(t)
}

/// Entry `i` applies `op` to entries `a` and `b`.
pub open spec fn id_pair(av: Seq<ExprView>, i: int, op: ExprOp, a: int, b: int) -> bool {
    &&& 0 <= i < av.len()
    &&& av[i].op == op
    &&& av[i].values.len() == 2
    &&& av[i].values[0] == ChildView::Id(a as usize)
    &&& av[i].values[1] == ChildView::Id(b as usize)
}

/// Entry `e` is the annotated constraint `cm(pol_id) - exp(exp_id)`, its two
/// operands stored just before it, all from index `start` on.
pub open spec fn im_constraint_node(av: Seq<ExprView>, e: int, pol_id: int, exp_id: usize, start: int) -> bool {
    &&& 0 <= start <= e - 2
    &&& id_pair(av, e, ExprOp::Sub, e - 2, e - 1)
    &&& av[e].info_computed
    &&& av[e - 2].op == ExprOp::Cm
    &&& av[e - 2].id == Some(pol_id as usize)
    &&& ref_node(av, e - 1, exp_id)
}

/// Entry `c` is the annotated `exp(w) + exp(e)` where `w` is
/// `vc * exp(p)`: the constraint polynomial `p` folded with constraint `e`.
pub open spec fn im_fold(av: Seq<ExprView>, c: int, e: usize, vc: int, p: usize, start: int) -> bool {
    let w = av[c - 1].id.unwrap() as int;
    &&& 0 <= start <= c - 2
    &&& start <= w - 1
    &&& av[c].info_computed
    &&& id_pair(av, c, ExprOp::Add, c - 1, c - 2)
    &&& ref_node(av, c - 1, w as usize)
    &&& ref_node(av, c - 2, e)
    &&& id_pair(av, w, ExprOp::Mul, vc, w - 1)
    &&& ref_node(av, w - 1, p)
}

/// Entry `c` is the constraint polynomial `c0` folded, in order, with the
/// first `k` constraints of `cs`.
pub open spec fn im_chain(av: Seq<ExprView>, cs: Seq<ConstraintInfo>, k: int, c: int, c0: int, vc: int, start: int) -> bool
    decreases k,
{
    if k <= 0 {
        c == c0
    } else {
        let w = av[c - 1].id.unwrap() as int;
        let p = av[w - 1].id.unwrap() as int;
        &&& im_fold(av, c, cs[k - 1].e, vc, p as usize, start)
        &&& im_chain(av, cs, k - 1, p, c0, vc, start)
    }
}

proof fn lemma_ref_stable(o: Seq<ExprView>, n: Seq<ExprView>, i: int, t: usize)
    requires
        ref_node(o, i, t),
        grows_from(o, n),
    ensures
        ref_node(n, i, t),
{
    assert(same_shape(o[i], n[i]));
}

proof fn lemma_pair_stable(o: Seq<ExprView>, n: Seq<ExprView>, i: int, op: ExprOp, a: int, b: int)
    requires
        id_pair(o, i, op, a, b),
        grows_from(o, n),
        op == ExprOp::Add || op == ExprOp::Sub || op == ExprOp::Mul,
        op == ExprOp::Mul || o[i].info_computed,
    ensures
        id_pair(n, i, op, a, b),
        o[i].info_computed ==> n[i].info_computed,
{
    assert(same_shape(o[i], n[i]));
    assert(child_shape(o[i].values[0], n[i].values[0]));
    assert(child_shape(o[i].values[1], n[i].values[1]));
    if o[i].info_computed {
        assert(settled(n[i], o[i]));
    }
}

proof fn lemma_fold_stable(o: Seq<ExprView>, n: Seq<ExprView>, c: int, e: usize, vc: int, p: usize, start: int)
    requires
        im_fold(o, c, e, vc, p, start),
        grows_from(o, n),
    ensures
        im_fold(n, c, e, vc, p, start),
{
    let w = o[c - 1].id.unwrap() as int;
    lemma_pair_stable(o, n, c, ExprOp::Add, c - 1, c - 2);
    lemma_ref_stable(o, n, c - 1, w as usize);
    lemma_ref_stable(o, n, c - 2, e);
    lemma_pair_stable(o, n, w, ExprOp::Mul, vc, w - 1);
    lemma_ref_stable(o, n, w - 1, p);
}

proof fn lemma_chain_grows(o: Seq<ExprView>, n: Seq<ExprView>, cs: Seq<ConstraintInfo>, k: int, c: int, c0: int, vc: int, start: int)
    requires
        im_chain(o, cs, k, c, c0, vc, start),
        grows_from(o, n),
    ensures
        im_chain(n, cs, k, c, c0, vc, start),
    decreases k,
{
    if k > 0 {
        let w = o[c - 1].id.unwrap() as int;
        let p = o[w - 1].id.unwrap() as int;
        lemma_fold_stable(o, n, c, cs[k - 1].e, vc, p as usize, start);
        lemma_chain_grows(o, n, cs, k - 1, p, c0, vc, start);
    }
}

/// The chain reads only the first `k` constraints.
proof fn lemma_chain_prefix(av: Seq<ExprView>, cs1: Seq<ConstraintInfo>, cs2: Seq<ConstraintInfo>, k: int, c: int, c0: int, vc: int, start: int)
    requires
        im_chain(av, cs1, k, c, c0, vc, start),
        k <= cs1.len(),
        k <= cs2.len(),
        forall|j: int| 0 <= j < k ==> cs1[j] == cs2[j],
    ensures
        im_chain(av, cs2, k, c, c0, vc, start),
    decreases k,
{
    if k > 0 {
        let w = av[c - 1].id.unwrap() as int;
        let p = av[w - 1].id.unwrap() as int;
        assert(cs1[k - 1] == cs2[k - 1]);
        lemma_chain_prefix(av, cs1, cs2, k - 1, p, c0, vc, start);
    }
}

proof fn lemma_constraint_node_grows(o: Seq<ExprView>, n: Seq<ExprView>, e: int, pol_id: int, exp_id: usize, start: int)
    requires
        im_constraint_node(o, e, pol_id, exp_id, start),
        grows_from(o, n),
    ensures
        im_constraint_node(n, e, pol_id, exp_id, start),
{
    lemma_pair_stable(o, n, e, ExprOp::Sub, e - 2, e - 1);
    assert(same_shape(o[e - 2], n[e - 2]));
    lemma_ref_stable(o, n, e - 1, exp_id);
}

/// Changing fields of an entry that bear neither on its structure nor on its
/// annotation state keeps the arena valid and lets it grow.
proof fn lemma_update_entry(av: Seq<ExprView>, i: int, x: ExprView)
    requires
        arena_ok(av),
        0 <= i < av.len(),
        x.op == av[i].op,
        x.values == av[i].values,
        x.id == av[i].id,
        x.boundary == av[i].boundary,
        x.boundary_id == av[i].boundary_id,
        x.info_computed == av[i].info_computed,
        x.dim >= 1,
    ensures
        arena_ok(av.update(i, x)),
        grows_from(av, av.update(i, x)),
        crate::helpers::arena_nn(av) ==> crate::helpers::arena_nn(av.update(i, x)),
{
    lemma_node_pointwise(x);
    lemma_node_pointwise(av[i]);
    let n = av.update(i, x);
    lemma_node_pointwise(x);
    lemma_node_pointwise(av[i]);
    let r = canon_rank(av);
    assert(ranked(av, r));
    assert forall|a: int, j: int| 0 <= a < n.len() && #[trigger] refers_to(n[a], j) implies 0 <= j < n.len() && r[j] < r[a] by {
        if a == i {
            assert(refers_to(av[i], j));
        }
    }
    assert(ranked(n, r));
    assert forall|a: int| 0 <= a < n.len() implies #[trigger] well_shaped(n[a]) && tree_known(n[a]) && tree_sane(n[a]) by {
        if a != i {
            assert(n[a] == av[a]);
        }
    }
    assert forall|a: int| 0 <= a < av.len() && av[a].info_computed implies #[trigger] settled(n[a], av[a]) by {}
    assert forall|a: int| 0 <= a < av.len() implies #[trigger] same_shape(av[a], n[a]) by {
        if a == i {
            assert forall|k: int| 0 <= k < av[a].values.len() implies child_shape(av[a].values[k], #[trigger] n[a].values[k]) by {
                match av[a].values[k] {
                    ChildView::Id(_) => {},
                    ChildView::Inline(b) => {
                        assert(node_shape(*b, *b));
                    },
                }
            }
        } else {
            lemma_entry_shape_refl(av[a]);
        }
    }
}

/// Number of witness symbols of stage `stage`.
pub open spec fn witnesses_in(syms: Seq<SymbolInfo>, stage: usize) -> nat
    decreases syms.len(),
{
    if syms.len() == 0 {
        0
    } else {
        let s = syms.last();
        witnesses_in(syms.drop_last(), stage) + if s.sym_type == SymType::Witness && s.stage == Some(stage) {
            1nat
        } else {
            0
        }
    }
}

fn count_witnesses(symbols: &Vec<SymbolInfo>, stage: usize) -> (n: usize)
    ensures
        n == witnesses_in(symbols@, stage),
{
    let mut n: usize = 0;
    let mut i: usize = 0;
    while i < symbols.len()
        invariant
            i <= symbols@.len(),
            n == witnesses_in(symbols@.subrange(0, i as int), stage),
            n <= i,
        decreases symbols.len() - i,
    {
        proof {
            let s = symbols@.subrange(0, i as int + 1);
            assert(s.drop_last() =~= symbols@.subrange(0, i as int));
        }
        let is_w = match symbols[i].sym_type {
            SymType::Witness => true,
            _ => false,
        };
        let same = match symbols[i].stage {
            Some(st) => st == stage,
            None => false,
        };
        if is_w && same {
            n = n + 1;
        }
        i = i + 1;
    }
    proof {
        assert(symbols@.subrange(0, symbols@.len() as int) =~= symbols@);
    }
    n
}

/// The witness symbol that commits entry `exp_id` as an intermediate
/// polynomial.
pub open spec fn is_im_symbol(
    s: SymbolInfo,
    name: Seq<char>,
    exp_id: usize,
    pol_id: int,
    stage_id: int,
    air_id: usize,
    airgroup_id: usize,
) -> bool {
    &&& s.sym_type == SymType::Witness
    &&& s.name@ == name + ".ImPol"@
    &&& s.id == Some(exp_id)
    &&& s.pol_id == Some(pol_id as usize)
    &&& s.stage is Some
    &&& s.stage_id == Some(stage_id as usize)
    &&& s.dim >= 1
    &&& s.air_id == Some(air_id)
    &&& s.airgroup_id == Some(airgroup_id)
    &&& s.commit_id is None
    &&& s.lengths is None
    &&& s.idx is None
    &&& s.stage_pos is None
    &&& !s.im_pol
    &&& s.exp_id is None
}

/// The witness symbol `Q<i>` of the `i`-th piece of the quotient polynomial.
pub open spec fn is_q_symbol(s: SymbolInfo, i: int, pol_id: int, stage: int, dim: usize, air_id: usize, airgroup_id: usize) -> bool {
    &&& s.sym_type == SymType::Witness
    &&& s.name@ == "Q"@ + decimal(i as nat)
    &&& s.id is None
    &&& s.pol_id == Some(pol_id as usize)
    &&& s.stage == Some(stage as usize)
    &&& s.stage_id is None
    &&& s.dim == dim
    &&& s.air_id == Some(air_id)
    &&& s.airgroup_id == Some(airgroup_id)
    &&& s.commit_id is None
    &&& s.lengths is None
    &&& s.idx is None
    &&& s.stage_pos is None
    &&& !s.im_pol
    &&& s.exp_id is None
}

/// The constraint that ties an intermediate polynomial's column to its
/// expression, enforced on every row.
pub open spec fn is_im_constraint(c: ConstraintInfo, name: Seq<char>) -> bool {
    &&& c.boundary == BoundaryKind::EveryRow
    &&& c.line is Some
    &&& c.line.unwrap()@ == name + ".ImPol"@
    &&& c.stage is Some
    &&& c.offset_min is None
    &&& c.offset_max is None
    &&& !c.im_pol
}

/// Index of the first `everyRow` boundary, 0 when there is none, looking
/// from position `i` on.
pub open spec fn every_row_from(bs: Seq<Boundary>, i: int) -> int
    decreases bs.len() - i,
{
    if i < 0 || i >= bs.len() {
        0
    } else if bs[i].name == BoundaryKind::EveryRow {
        i
    } else {
        every_row_from(bs, i + 1)
    }
}

fn every_row_index(boundaries: &[Boundary]) -> (r: usize)
    ensures
        r as int == every_row_from(boundaries@, 0),
{
    let mut i: usize = 0;
    while i < boundaries.len()
        invariant
            i <= boundaries@.len(),
            every_row_from(boundaries@, 0) == every_row_from(boundaries@, i as int),
        decreases boundaries.len() - i,
    {
        let is_row = match boundaries[i].name {
            BoundaryKind::EveryRow => true,
            _ => false,
        };
        if is_row {
            return i;
        }
        i = i + 1;
    }
    0
}

fn push_entry(expressions: &mut Vec<Expression>, e: Expression) -> (r: usize)
    requires
        arena_ok(arena_view(old(expressions)@)),
        inline_wf(arena_view(old(expressions)@), e@),
        tree_known(e@),
        tree_sane(e@),
    ensures
        arena_ok(arena_view(final(expressions)@)),
        arena_view(final(expressions)@) == arena_view(old(expressions)@).push(e@),
        keeps_annotations(arena_view(old(expressions)@), arena_view(final(expressions)@)),
        r == old(expressions)@.len(),
        crate::helpers::arena_nn(arena_view(old(expressions)@)) && crate::helpers::tree_nn(e@) ==> crate::helpers::arena_nn(
            arena_view(final(expressions)@),
        ),
{
    proof {
        lemma_push_ok(arena_view(expressions@), e@);
    }
    let r = expressions.len();
    expressions.push(e);
    proof {
        let n = arena_view(expressions@);
        let o = arena_view(old(expressions)@);
        assert(n =~= o.push(e@));
        if crate::helpers::arena_nn(o) && crate::helpers::tree_nn(e@) {
            assert forall|i: int| 0 <= i < n.len() implies #[trigger] crate::helpers::tree_nn(n[i]) by {
                if i < o.len() {
                    assert(n[i] == o[i]);
                }
            }
        }
    }
    r
}

/// A node that is no negation and whose children are all references holds
/// no negation.
proof fn lemma_nn_node(e: ExprView)
    requires
        e.op != ExprOp::Neg,
        forall|k: int| 0 <= k < e.values.len() ==> (#[trigger] e.values[k]) is Id,
    ensures
        crate::helpers::tree_nn(e),
{
    lemma_node_pointwise(e);
}

/// A childless node of a kind that refers to nothing but through its target.
proof fn lemma_leaf_node(e: ExprView, av: Seq<ExprView>)
    requires
        e.values.len() == 0,
        e.dim >= 1,
        e.op == ExprOp::Exp ==> e.id is Some && e.id.unwrap() < av.len(),
        e.op == ExprOp::Cm || e.op == ExprOp::Exp || e.op == ExprOp::Zi || e.op == ExprOp::Challenge,
    ensures
        inline_wf(av, e),
        tree_known(e),
        tree_sane(e),
{
    lemma_node_pointwise(e);
}

/// A node over two entries already in the arena.
fn pair_node_of(op: ExprOp, a: usize, b: usize, av: Ghost<Seq<ExprView>>) -> (e: Expression)
    requires
        a < av@.len(),
        b < av@.len(),
        op == ExprOp::Add || op == ExprOp::Sub || op == ExprOp::Mul,
    ensures
        e@.op == op,
        e@.values == seq![ChildView::Id(a), ChildView::Id(b)],
        !e@.info_computed,
        inline_wf(av@, e@),
        tree_known(e@),
        tree_sane(e@),
{
    let mut e = Expression::new(op);
    let mut v: Vec<ExprChild> = Vec::new();
    v.push(ExprChild::Id(a));
    v.push(ExprChild::Id(b));
    e.values = v;
    proof {
        lemma_children_view(e.values@);
        assert(e@.values =~= seq![ChildView::Id(a), ChildView::Id(b)]);
        lemma_node_pointwise(e@);
        assert forall|j: int| #[trigger] refers_to(e@, j) implies 0 <= j < av@.len() by {
            let k = choose|k: int| 0 <= k < e@.values.len() && #[trigger] child_refers_to(e@.values[k], j);
        }
    }
    e
}

/// Annotating an arithmetic entry over two `exp`/`cm` entries keeps its
/// operation and operands.
proof fn lemma_annotated_pair(o: Seq<ExprView>, n: Seq<ExprView>, i: int, op: ExprOp, a: int, b: int)
    requires
        id_pair(o, i, op, a, b),
        op == ExprOp::Add || op == ExprOp::Sub || op == ExprOp::Mul,
        0 <= a < o.len(),
        0 <= b < o.len(),
        a <= usize::MAX,
        b <= usize::MAX,
        o[a].op != ExprOp::Number,
        o[b].op != ExprOp::Number,
        n.len() >= o.len(),
        info_result(o, n, o[i], n[i]),
    ensures
        id_pair(n, i, op, a, b),
        n[i].info_computed,
{
    let e1 = n[i];
    assert(resolve_view(o, o[i].values[0]) == o[a]);
    assert(resolve_view(o, o[i].values[1]) == o[b]);
    assert(!is_zero_number(o[a]));
    assert(!is_zero_number(o[b]));
    assert(rewritten_op(o, o[i]) == op);
    assert(bin_result(o, n, o[i], e1));
    assert(child_shape(o[i].values[0], e1.values[0]));
    assert(child_shape(o[i].values[1], e1.values[1]));
}


/// Commits entry `exp_id` as an intermediate polynomial: the witness symbol
/// `<name>.ImPol`, the constraint `cm - exp(exp_id)` on every row, and the
/// fold `vc * exp(c_exp) + exp(constraint)` of the constraint polynomial,
/// which it returns.
#[verifier::rlimit(50)]
fn commit_im_exp(
    expressions: &mut Vec<Expression>,
    constraints: &mut Vec<ConstraintInfo>,
    symbols: &mut Vec<SymbolInfo>,
    name: &str,
    air_id: usize,
    airgroup_id: usize,
    n_stages: usize,
    stage: usize,
    n_commitments: &mut usize,
    c_exp: usize,
    vc_idx: usize,
    exp_id: usize,
    im_pols_stages: bool,
) -> (r: usize)
    requires
        arena_ok(arena_view(old(expressions)@)),
        exp_id < old(expressions)@.len(),
        c_exp < old(expressions)@.len(),
        vc_idx < old(expressions)@.len(),
        old(expressions)@[vc_idx as int].op == ExprOp::Challenge,
        *old(n_commitments) < usize::MAX,
    ensures
        ({
            let o = arena_view(old(expressions)@);
            let n = arena_view(final(expressions)@);
            let s = final(symbols)@.last();
            let c = final(constraints)@.last();
            &&& arena_ok(n)
            &&& grows_from(o, n)
            &&& *final(n_commitments) == *old(n_commitments) + 1
            &&& final(symbols)@ == old(symbols)@.push(s)
            &&& is_im_symbol(s, name@, exp_id, *old(n_commitments) as int, witnesses_in(old(symbols)@, s.stage.unwrap()) as int, air_id, airgroup_id)
            &&& !im_pols_stages ==> s.stage == Some(n_stages)
            &&& final(constraints)@ == old(constraints)@.push(c)
            &&& is_im_constraint(c, name@)
            &&& im_constraint_node(n, c.e as int, *old(n_commitments) as int, exp_id, o.len() as int)
            &&& im_fold(n, r as int, c.e, vc_idx as int, c_exp, o.len() as int)
            &&& n[exp_id as int].im_pol
            &&& n[exp_id as int].pol_id == Some(*old(n_commitments))
            &&& forall|i: int| 0 <= i < o.len() && i != exp_id ==> #[trigger] same_marks(o[i], n[i])
            &&& crate::helpers::arena_nn(o) ==> crate::helpers::arena_nn(n) && n.len() == o.len() + 8 && r == n.len() - 1
        }),
{
    let ghost o = arena_view(expressions@);
    let stage_im = if im_pols_stages { expressions[exp_id].stage } else { n_stages };
    let stage_id = count_witnesses(symbols, stage_im);
    proof {
        lemma_sane_arena_defined(o, Seq::empty(), exp_id as int);
        lemma_sane_exp_dim_pos(o, exp_id as int);
        assert(o[exp_id as int] == expressions@[exp_id as int]@);
        assert(tree_sane(o[exp_id as int]));
    }
    let exp_dim = get_exp_dim(expressions, exp_id);
    let pol_id = *n_commitments;
    *n_commitments = pol_id + 1;
    let mut sym_name = String::from_str(name);
    sym_name.append(".ImPol");
    symbols.push(SymbolInfo {
        name: sym_name,
        sym_type: SymType::Witness,
        stage: Some(stage_im),
        dim: exp_dim,
        id: Some(exp_id),
        pol_id: Some(pol_id),
        stage_id: Some(stage_id),
        air_id: Some(air_id),
        airgroup_id: Some(airgroup_id),
        commit_id: None,
        lengths: None,
        idx: None,
        stage_pos: None,
        im_pol: false,
        exp_id: None,
    });
    // mark the entry as committed
    let mut ent = expressions[exp_id].deep_copy();
    ent.im_pol = true;
    ent.pol_id = Some(pol_id);
    ent.stage = stage_im;
    proof {
        lemma_update_entry(o, exp_id as int, ent@);
    }
    expressions.set(exp_id, ent);
    let ghost o1 = arena_view(expressions@);
    proof {
        assert(o1 =~= o.update(exp_id as int, ent@));
    }
    // the constraint cm - exp(exp_id)
    let mut cm = Expression::new(ExprOp::Cm);
    cm.id = Some(pol_id);
    cm.row_offset = Some(0);
    cm.stage = stage_im;
    cm.dim = exp_dim;
    proof {
        lemma_children_view(cm.values@);
        lemma_leaf_node(cm@, o1);
        lemma_nn_node(cm@);
    }
    let cm_idx = push_entry(expressions, cm);
    let er_stage = expressions[exp_id].stage;
    let er = exp_ref(exp_id, er_stage);
    proof {
        lemma_leaf_node(er@, arena_view(expressions@));
        lemma_nn_node(er@);
    }
    let er_idx = push_entry(expressions, er);
    let sub = pair_node_of(ExprOp::Sub, cm_idx, er_idx, Ghost(arena_view(expressions@)));
    proof {
        lemma_nn_node(sub@);
    }
    let sub_idx = push_entry(expressions, sub);
    let ghost o2 = arena_view(expressions@);
    add_info_expressions(expressions, sub_idx);
    let ghost o3 = arena_view(expressions@);
    proof {
        lemma_annotated_pair(o2, o3, sub_idx as int, ExprOp::Sub, cm_idx as int, er_idx as int);
        lemma_keeps_trans(o1, o2, o3);
        assert(o2[cm_idx as int].op == ExprOp::Cm);
        assert(o2[cm_idx as int].id == Some(pol_id));
        assert(ref_node(o2, er_idx as int, exp_id));
        assert(entry_shape(o2[cm_idx as int], o3[cm_idx as int]));
        assert(entry_shape(o2[er_idx as int], o3[er_idx as int]));
        assert(im_constraint_node(o3, sub_idx as int, pol_id as int, exp_id, o.len() as int));
    }
    let c_stage = expressions[exp_id].stage;
    let mut line = String::from_str(name);
    line.append(".ImPol");
    constraints.push(ConstraintInfo {
        boundary: BoundaryKind::EveryRow,
        e: sub_idx,
        line: Some(line),
        offset_min: None,
        offset_max: None,
        stage: Some(c_stage),
        im_pol: false,
    });
    // weighted: vc * exp(c_exp)
    let cr = exp_ref(c_exp, stage);
    proof {
        lemma_leaf_node(cr@, o3);
        lemma_nn_node(cr@);
    }
    let cr_idx = push_entry(expressions, cr);
    let w = pair_node_of(ExprOp::Mul, vc_idx, cr_idx, Ghost(arena_view(expressions@)));
    proof {
        lemma_nn_node(w@);
    }
    let w_idx = push_entry(expressions, w);
    let ghost o4 = arena_view(expressions@);
    proof {
        lemma_keeps_trans(o1, o3, o4);
        lemma_keeps_grows(o1, o4);
        lemma_update_entry(o, exp_id as int, ent@);
        lemma_grows_trans(o, o1, o4);
        assert(same_shape(o[vc_idx as int], o4[vc_idx as int]));
    }
    add_info_expressions(expressions, w_idx);
    let ghost o5 = arena_view(expressions@);
    proof {
        lemma_annotated_pair(o4, o5, w_idx as int, ExprOp::Mul, vc_idx as int, cr_idx as int);
    }
    // accumulated: exp(weighted) + exp(constraint)
    let con_ref = exp_ref(sub_idx, stage);
    proof {
        lemma_leaf_node(con_ref@, o5);
        lemma_nn_node(con_ref@);
    }
    let con_idx = push_entry(expressions, con_ref);
    let w_ref = exp_ref(w_idx, stage);
    proof {
        lemma_leaf_node(w_ref@, arena_view(expressions@));
        lemma_nn_node(w_ref@);
    }
    let wr_idx = push_entry(expressions, w_ref);
    let acc = pair_node_of(ExprOp::Add, wr_idx, con_idx, Ghost(arena_view(expressions@)));
    proof {
        lemma_nn_node(acc@);
    }
    let acc_idx = push_entry(expressions, acc);
    let ghost o6 = arena_view(expressions@);
    add_info_expressions(expressions, acc_idx);
    proof {
        let n = arena_view(expressions@);
        lemma_annotated_pair(o6, n, acc_idx as int, ExprOp::Add, wr_idx as int, con_idx as int);
        lemma_keeps_trans(o5, o6, n);
        lemma_keeps_trans(o4, o5, n);
        lemma_keeps_trans(o3, o4, n);
        lemma_keeps_grows(o3, n);
        lemma_keeps_trans(o1, o3, n);
        lemma_keeps_grows(o1, n);
        lemma_grows_trans(o, o1, n);
        // the constraint node
        lemma_constraint_node_grows(o3, n, sub_idx as int, pol_id as int, exp_id, o.len() as int);
        // the weighted node
        lemma_keeps_grows(o5, n);
        lemma_pair_stable(o5, n, w_idx as int, ExprOp::Mul, vc_idx as int, cr_idx as int);
        lemma_keeps_grows(o4, n);
        lemma_ref_stable(o4, n, cr_idx as int, c_exp);
        lemma_keeps_grows(o6, n);
        lemma_ref_stable(o6, n, con_idx as int, sub_idx);
        lemma_ref_stable(o6, n, wr_idx as int, w_idx);
        assert(im_fold(n, acc_idx as int, sub_idx, vc_idx as int, c_exp, o.len() as int));
        lemma_marks_kept(o, o1, n, exp_id as int, ent@);
    }
    acc_idx
}

/// Marking entry `x` and then annotating keeps every other entry's marks.
proof fn lemma_marks_kept(o: Seq<ExprView>, o1: Seq<ExprView>, n: Seq<ExprView>, x: int, ent: ExprView)
    requires
        0 <= x < o.len(),
        o1 == o.update(x, ent),
        keeps_annotations(o1, n),
    ensures
        same_marks(ent, n[x]),
        forall|i: int| 0 <= i < o.len() && i != x ==> #[trigger] same_marks(o[i], n[i]),
{
    assert(entry_shape(o1[x], n[x]));
    assert forall|i: int| 0 <= i < o.len() && i != x implies #[trigger] same_marks(o[i], n[i]) by {
        assert(entry_shape(o1[i], n[i]));
        assert(o1[i] == o[i]);
    }
}

/// Committing entry `im[k]` extends the marking by one.
proof fn lemma_marked_step(o: Seq<ExprView>, a: Seq<ExprView>, b: Seq<ExprView>, im: Seq<usize>, k: int, n0: int)
    requires
        marked_as(o, a, im, k, n0),
        0 <= k < im.len(),
        forall|t: int| 0 <= t < im.len() ==> (#[trigger] im[t] as int) < o.len(),
        o.len() <= a.len(),
        forall|i: int| 0 <= i < a.len() && i != im[k] ==> #[trigger] same_marks(a[i], b[i]),
        b[im[k] as int].im_pol,
        b[im[k] as int].pol_id == Some((n0 + k) as usize),
    ensures
        marked_as(o, b, im, k + 1, n0),
{
    let e = im[k];
    assert forall|t: int| 0 <= t < k + 1 implies (#[trigger] b[im[t] as int]).im_pol by {
        if im[t] != e {
            assert(same_marks(a[im[t] as int], b[im[t] as int]));
            assert(a[im[t] as int].im_pol);
        }
    }
    assert forall|t: int|
        0 <= t < k + 1 && (forall|u: int| t < u < k + 1 ==> im[u] != im[t]) implies (#[trigger] b[im[t] as int]).pol_id
        == Some((n0 + t) as usize) by {
        if t < k {
            assert(im[k] != im[t]);
            assert(same_marks(a[im[t] as int], b[im[t] as int]));
            assert(forall|u: int| t < u < k ==> im[u] != im[t]);
        }
    }
    assert forall|i: int| 0 <= i < o.len() && (forall|u: int| 0 <= u < k + 1 ==> im[u] != i) implies #[trigger] same_marks(
        o[i],
        b[i],
    ) by {
        assert(im[k] != i);
        assert(forall|u: int| 0 <= u < k ==> im[u] != i);
        assert(same_marks(o[i], a[i]));
        assert(same_marks(a[i], b[i]));
    }
}

/// Steps that keep the marks of the entries of `o` keep the marking.
proof fn lemma_marked_keep(o: Seq<ExprView>, a: Seq<ExprView>, b: Seq<ExprView>, im: Seq<usize>, k: int, n0: int)
    requires
        marked_as(o, a, im, k, n0),
        0 <= k <= im.len(),
        forall|t: int| 0 <= t < im.len() ==> (#[trigger] im[t] as int) < o.len(),
        forall|i: int| 0 <= i < o.len() ==> #[trigger] same_marks(a[i], b[i]),
    ensures
        marked_as(o, b, im, k, n0),
{
    assert forall|t: int| 0 <= t < k implies (#[trigger] b[im[t] as int]).im_pol by {
        assert(same_marks(a[im[t] as int], b[im[t] as int]));
    }
    assert forall|t: int|
        0 <= t < k && (forall|u: int| t < u < k ==> im[u] != im[t]) implies (#[trigger] b[im[t] as int]).pol_id == Some(
        (n0 + t) as usize,
    ) by {
        assert(same_marks(a[im[t] as int], b[im[t] as int]));
    }
    assert forall|i: int| 0 <= i < o.len() && (forall|u: int| 0 <= u < k ==> im[u] != i) implies #[trigger] same_marks(
        o[i],
        b[i],
    ) by {
        assert(same_marks(o[i], a[i]));
        assert(same_marks(a[i], b[i]));
    }
}

/// Annotation keeps every entry's marks.
proof fn lemma_keeps_marks(a: Seq<ExprView>, b: Seq<ExprView>)
    requires
        keeps_annotations(a, b),
    ensures
        forall|i: int| 0 <= i < a.len() ==> #[trigger] same_marks(a[i], b[i]),
{
    assert forall|i: int| 0 <= i < a.len() implies #[trigger] same_marks(a[i], b[i]) by {
        assert(entry_shape(a[i], b[i]));
    }
}

/// Commits the chosen intermediate polynomials and builds the quotient: for
/// each entry of `im_exps` a witness column `<name>.ImPol` (stage `n_stages`,
/// or the entry's own stage with `im_pols_stages`), the constraint
/// `cm - exp(entry)` on every row, and the fold `vc * c + constraint` of the
/// constraint polynomial `c` with a new challenge `vc` of stage
/// `n_stages + 1`; then `c * Zi(everyRow)` becomes the constraint polynomial
/// and `q_deg` witness columns `Q0, Q1, ...` of its dimension are added.
/// Returns that dimension.
pub fn add_im_polynomials(
    expressions: &mut Vec<Expression>,
    constraints: &mut Vec<ConstraintInfo>,
    symbols: &mut Vec<SymbolInfo>,
    name: &str,
    air_id: usize,
    airgroup_id: usize,
    n_stages: usize,
    n_commitments: &mut usize,
    c_exp_id: &mut usize,
    im_exps: &[usize],
    q_deg: i64,
    im_pols_stages: bool,
    boundaries: &[Boundary],
) -> (q_dim: usize)
    requires
        arena_ok(arena_view(old(expressions)@)),
        *old(c_exp_id) < old(expressions)@.len(),
        forall|k: int| 0 <= k < im_exps@.len() ==> (#[trigger] im_exps@[k] as int) < old(expressions)@.len(),
        n_stages < usize::MAX,
        *old(n_commitments) + im_exps@.len() + (if q_deg > 0 { q_deg as int } else { 0 }) <= usize::MAX,
    ensures
        ({
            let o = arena_view(old(expressions)@);
            let n = arena_view(final(expressions)@);
            let ni = im_exps@.len() as int;
            let qn = if q_deg > 0 { q_deg as int } else { 0 };
            let s0 = old(symbols)@.len() as int;
            let k0 = old(constraints)@.len() as int;
            let nc0 = *old(n_commitments) as int;
            let stage = n_stages + 1;
            let c = *final(c_exp_id) as int;
            let syms = final(symbols)@;
            let cs = final(constraints)@;
            let vc = o.len() as int;
            &&& arena_ok(n)
            &&& grows_from(o, n)
            &&& *final(n_commitments) == nc0 + ni + qn
            &&& syms.len() == s0 + ni + qn
            &&& syms.subrange(0, s0) == old(symbols)@
            &&& forall|k: int| 0 <= k < ni ==> is_im_symbol(
                #[trigger] syms[s0 + k],
                name@,
                im_exps@[k],
                nc0 + k,
                witnesses_in(syms.subrange(0, s0 + k), syms[s0 + k].stage.unwrap()) as int,
                air_id,
                airgroup_id,
            )
            &&& !im_pols_stages ==> forall|k: int| 0 <= k < ni ==> (#[trigger] syms[s0 + k]).stage == Some(n_stages)
            &&& forall|i: int| 0 <= i < qn ==> is_q_symbol(#[trigger] syms[s0 + ni + i], i, nc0 + ni + i, stage, q_dim, air_id, airgroup_id)
            &&& cs.len() == k0 + ni
            &&& cs.subrange(0, k0) == old(constraints)@
            &&& forall|k: int| 0 <= k < ni ==> is_im_constraint(#[trigger] cs[k0 + k], name@) && im_constraint_node(
                n,
                cs[k0 + k].e as int,
                nc0 + k,
                im_exps@[k],
                o.len() as int,
            )
            &&& n[vc].op == ExprOp::Challenge
            &&& n[vc].id == Some(challenges_before(old(symbols)@, stage) as usize)
            &&& id_pair(n, c, ExprOp::Mul, c - 2, c - 1)
            &&& n[c - 2].op == ExprOp::Exp
            &&& im_chain(n, cs.subrange(k0, k0 + ni), ni, n[c - 2].id.unwrap() as int, *old(c_exp_id) as int, vc, vc)
            &&& n[c - 1].op == ExprOp::Zi
            &&& n[c - 1].boundary == Some(BoundaryKind::EveryRow)
            &&& n[c - 1].boundary_id == Some(every_row_from(boundaries@, 0) as usize)
            &&& q_dim == n[c].dim
            &&& q_dim >= 1
            &&& marked_as(o, n, im_exps@, ni, nc0)
            &&& crate::helpers::arena_nn(o) ==> crate::helpers::arena_nn(n) && c == n.len() - 1
        }),
{
    let ghost o = arena_view(expressions@);
    let ghost syms0 = symbols@;
    let ghost cs0 = constraints@;
    let ghost nc0 = *n_commitments;
    let ghost c0 = *c_exp_id;
    let stage = n_stages + 1;
    let vc_id = count_challenges_before(symbols, stage);
    let mut vc = Expression::new(ExprOp::Challenge);
    vc.id = Some(vc_id);
    vc.dim = FIELD_EXTENSION;
    vc.stage = stage;
    vc.stage_id = Some(0);
    vc.exp_deg = 0;
    proof {
        lemma_children_view(vc.values@);
        lemma_leaf_node(vc@, o);
        lemma_nn_node(vc@);
    }
    let vc_idx = push_entry(expressions, vc);
    let ghost ov = arena_view(expressions@);
    let mut c = *c_exp_id;
    let ni = im_exps.len();
    let mut k: usize = 0;
    proof {
        lemma_keeps_grows(o, ov);
        assert(syms0.subrange(0, syms0.len() as int) =~= syms0);
        assert(cs0.subrange(0, cs0.len() as int) =~= cs0);
    }
    while k < ni
        invariant
            ni == im_exps@.len(),
            k <= ni,
            stage == n_stages + 1,
            vc_idx == o.len(),
            ov.len() == o.len() + 1,
            ov[vc_idx as int].op == ExprOp::Challenge,
            ov[vc_idx as int].id == Some(vc_id),
            vc_id == challenges_before(syms0, stage as int),
            forall|t: int| 0 <= t < im_exps@.len() ==> (#[trigger] im_exps@[t] as int) < o.len(),
            nc0 + im_exps@.len() + (if q_deg > 0 { q_deg as int } else { 0 }) <= usize::MAX,
            arena_ok(arena_view(expressions@)),
            grows_from(ov, arena_view(expressions@)),
            grows_from(o, ov),
            c < expressions@.len(),
            *n_commitments == nc0 + k,
            symbols@.len() == syms0.len() + k,
            symbols@.subrange(0, syms0.len() as int) == syms0,
            forall|j: int| 0 <= j < k ==> is_im_symbol(
                #[trigger] symbols@[syms0.len() + j],
                name@,
                im_exps@[j],
                nc0 + j,
                witnesses_in(symbols@.subrange(0, syms0.len() + j), symbols@[syms0.len() + j].stage.unwrap()) as int,
                air_id,
                airgroup_id,
            ),
            !im_pols_stages ==> forall|j: int| 0 <= j < k ==> (#[trigger] symbols@[syms0.len() + j]).stage == Some(n_stages),
            constraints@.len() == cs0.len() + k,
            constraints@.subrange(0, cs0.len() as int) == cs0,
            forall|j: int| 0 <= j < k ==> is_im_constraint(#[trigger] constraints@[cs0.len() + j], name@) && im_constraint_node(
                arena_view(expressions@),
                constraints@[cs0.len() + j].e as int,
                nc0 + j,
                im_exps@[j],
                o.len() as int,
            ),
            im_chain(
                arena_view(expressions@),
                constraints@.subrange(cs0.len() as int, cs0.len() + k),
                k as int,
                c as int,
                c0 as int,
                vc_idx as int,
                vc_idx as int,
            ),
            marked_as(o, arena_view(expressions@), im_exps@, k as int, nc0 as int),
            crate::helpers::arena_nn(o) ==> crate::helpers::arena_nn(arena_view(expressions@)),
        decreases ni - k,
    {
        let ghost before = arena_view(expressions@);
        let ghost syms_b = symbols@;
        let ghost cs_b = constraints@;
        proof {
            assert(same_shape(ov[vc_idx as int], before[vc_idx as int]));
            assert(im_exps@[k as int] < o.len());
        }
        let r = commit_im_exp(
            expressions,
            constraints,
            symbols,
            name,
            air_id,
            airgroup_id,
            n_stages,
            stage,
            n_commitments,
            c,
            vc_idx,
            im_exps[k],
            im_pols_stages,
        );
        proof {
            let after = arena_view(expressions@);
            lemma_marked_step(o, before, after, im_exps@, k as int, nc0 as int);
            lemma_grows_trans(ov, before, after);
            // symbols
            assert(symbols@.subrange(0, syms0.len() as int) =~= syms0);
            assert(symbols@.subrange(0, syms0.len() + k) =~= syms_b);
            assert forall|j: int| 0 <= j <= k implies #[trigger] symbols@.subrange(0, syms0.len() + j) =~= syms_b.subrange(0, syms0.len() + j) by {}
            // constraints
            assert(constraints@.subrange(0, cs0.len() as int) =~= cs0);
            assert forall|j: int| 0 <= j <= k implies is_im_constraint(#[trigger] constraints@[cs0.len() + j], name@) && im_constraint_node(
                after,
                constraints@[cs0.len() + j].e as int,
                nc0 + j,
                im_exps@[j],
                o.len() as int,
            ) by {
                if j < k {
                    assert(constraints@[cs0.len() + j] == cs_b[cs0.len() + j]);
                    lemma_constraint_node_grows(before, after, cs_b[cs0.len() + j].e as int, nc0 + j, im_exps@[j], o.len() as int);
                }
            }
            // the chain
            let prev = cs_b.subrange(cs0.len() as int, cs0.len() + k);
            let cur = constraints@.subrange(cs0.len() as int, cs0.len() + k + 1);
            lemma_chain_grows(before, after, prev, k as int, c as int, c0 as int, vc_idx as int, vc_idx as int);
            lemma_chain_prefix(after, prev, cur, k as int, c as int, c0 as int, vc_idx as int, vc_idx as int);
            assert(cur[k as int] == constraints@.last());
            assert(im_chain(after, cur, k + 1, r as int, c0 as int, vc_idx as int, vc_idx as int));
        }
        c = r;
        k = k + 1;
    }
    // the quotient polynomial c * Zi(everyRow)
    let ghost g = arena_view(expressions@);
    let er = every_row_index(boundaries);
    let cref = exp_ref(c, stage);
    proof {
        lemma_leaf_node(cref@, g);
        lemma_nn_node(cref@);
    }
    let cr_idx = push_entry(expressions, cref);
    let mut zi = Expression::new(ExprOp::Zi);
    zi.boundary_id = Some(er);
    zi.boundary = Some(BoundaryKind::EveryRow);
    proof {
        lemma_children_view(zi.values@);
        lemma_leaf_node(zi@, arena_view(expressions@));
        lemma_nn_node(zi@);
    }
    let zi_idx = push_entry(expressions, zi);
    let q = pair_node_of(ExprOp::Mul, cr_idx, zi_idx, Ghost(arena_view(expressions@)));
    proof {
        lemma_nn_node(q@);
    }
    let q_idx = push_entry(expressions, q);
    let ghost h0 = arena_view(expressions@);
    add_info_expressions(expressions, q_idx);
    let ghost h = arena_view(expressions@);
    proof {
        lemma_annotated_pair(h0, h, q_idx as int, ExprOp::Mul, cr_idx as int, zi_idx as int);
        lemma_sane_arena_defined(h, Seq::empty(), q_idx as int);
        lemma_sane_exp_dim_pos(h, q_idx as int);
    }
    let q_dim = get_exp_dim(expressions, q_idx);
    let mut qe = expressions[q_idx].deep_copy();
    qe.dim = q_dim;
    proof {
        assert(h[q_idx as int] == expressions@[q_idx as int]@);
        lemma_update_entry(h, q_idx as int, qe@);
    }
    expressions.set(q_idx, qe);
    *c_exp_id = q_idx;
    proof {
        let n = arena_view(expressions@);
        assert(n =~= h.update(q_idx as int, qe@));
        lemma_keeps_trans(g, h0, h);
        lemma_keeps_grows(g, h);
        lemma_keeps_marks(g, h);
        assert forall|i: int| 0 <= i < o.len() implies #[trigger] same_marks(g[i], n[i]) by {
            assert(same_marks(g[i], h[i]));
            assert(n[i] == h[i]);
        }
        lemma_marked_keep(o, g, n, im_exps@, ni as int, nc0 as int);
        lemma_grows_trans(g, h, n);
        lemma_grows_trans(ov, g, n);
        lemma_grows_trans(o, ov, n);
        assert(same_shape(ov[vc_idx as int], n[vc_idx as int]));
        lemma_keeps_grows(h0, h);
        lemma_grows_trans(h0, h, n);
        lemma_pair_stable(h, n, q_idx as int, ExprOp::Mul, cr_idx as int, zi_idx as int);
        assert(same_shape(h0[cr_idx as int], n[cr_idx as int]));
        assert(same_shape(h0[zi_idx as int], n[zi_idx as int]));
        lemma_chain_grows(g, n, constraints@.subrange(cs0.len() as int, cs0.len() + ni), ni as int, c as int, c0 as int, vc_idx as int, vc_idx as int);
        assert forall|j: int| 0 <= j < ni implies is_im_constraint(#[trigger] constraints@[cs0.len() + j], name@) && im_constraint_node(
            n,
            constraints@[cs0.len() + j].e as int,
            nc0 + j,
            im_exps@[j],
            o.len() as int,
        ) by {
            lemma_constraint_node_grows(g, n, constraints@[cs0.len() + j].e as int, nc0 + j, im_exps@[j], o.len() as int);
        }
    }
    // the quotient's witness columns
    let qn: usize = if q_deg > 0 { q_deg as usize } else { 0 };
    let ghost s1 = symbols@;
    let mut i: usize = 0;
    while i < qn
        invariant
            i <= qn,
            qn == (if q_deg > 0 { q_deg as int } else { 0 }),
            stage == n_stages + 1,
            *n_commitments == nc0 + ni + i,
            nc0 + ni + qn <= usize::MAX,
            symbols@.len() == s1.len() + i,
            symbols@.subrange(0, s1.len() as int) == s1,
            forall|j: int| 0 <= j < i ==> is_q_symbol(#[trigger] symbols@[s1.len() + j], j, nc0 + ni + j, stage as int, q_dim, air_id, airgroup_id),
        decreases qn - i,
    {
        let index = *n_commitments;
        *n_commitments = index + 1;
        let mut q_name = String::from_str("Q");
        let digits = u64_to_decimal(i as u64);
        q_name.append(digits.as_str());
        let ghost sb = symbols@;
        symbols.push(SymbolInfo {
            name: q_name,
            sym_type: SymType::Witness,
            stage: Some(stage),
            dim: q_dim,
            id: None,
            pol_id: Some(index),
            stage_id: None,
            air_id: Some(air_id),
            airgroup_id: Some(airgroup_id),
            commit_id: None,
            lengths: None,
            idx: None,
            stage_pos: None,
            im_pol: false,
            exp_id: None,
        });
        proof {
            assert(symbols@.subrange(0, s1.len() as int) =~= s1);
            assert forall|j: int| 0 <= j < i implies #[trigger] symbols@[s1.len() + j] == sb[s1.len() + j] by {}
        }
        i = i + 1;
    }
    proof {
        assert(symbols@.subrange(0, syms0.len() as int) =~= syms0);
        assert forall|j: int| 0 <= j <= ni implies #[trigger] symbols@.subrange(0, syms0.len() + j) =~= s1.subrange(0, syms0.len() + j) by {}
        assert forall|j: int| 0 <= j < ni implies #[trigger] symbols@[syms0.len() + j] == s1[syms0.len() + j] by {}
    }
    q_dim
}

} // verus!
