//! Information passes over the expression arena: field dimension,
//! degree/stage/row-offset annotation, and the evaluation map of referenced
//! columns.
use vstd::prelude::*;
use crate::expression::{
    arena_view, canon_rank, child_refers_to, child_well_shaped, exp_target, lemma_child_refs,
    lemma_child_shaped, lemma_children_view, ranked, refers_to, refs_below, arena_wf, well_shaped,
    children_refer_to, children_shaped, children_view, ChildView, ExprChild, ExprOp, ExprView, Expression,
};
use crate::pilout_info::FIELD_EXTENSION;

verus! {

/// `true` for the three binary arithmetic operations.
pub open spec fn is_arith(op: ExprOp) -> bool {
    op == ExprOp::Add || op == ExprOp::Sub || op == ExprOp::Mul
}

/// Field dimension of an expression: a recorded dimension wins for
/// non-arithmetic nodes; arithmetic nodes take the largest dimension of their
/// children; references follow the arena.
pub open spec fn dim_expr(exprs: Seq<ExprView>, rank: Seq<nat>, e: ExprView, bound: nat) -> int
    decreases bound, e, e.values.len() + 1,
{
    if e.dim > 0 && !is_arith(e.op) {
        e.dim as int
    } else {
        match e.op {
            ExprOp::Add | ExprOp::Sub | ExprOp::Mul => dim_children(exprs, rank, e, e.values.len() as int, bound),
            ExprOp::Exp => {
                let j = exp_target(e);
                if 0 <= j < exprs.len() && rank.len() == exprs.len() && rank[j] < bound {
                    dim_expr(exprs, rank, exprs[j], rank[j])
                } else {
                    0
                }
            },
            ExprOp::Cm | ExprOp::Custom | ExprOp::Const | ExprOp::Number | ExprOp::Public | ExprOp::Zi => 1,
            ExprOp::Challenge | ExprOp::Eval | ExprOp::XDivXSubXi => FIELD_EXTENSION as int,
            _ => 0,
        }
    }
}

/// Largest dimension among the first `k` children (0 when there are none).
pub open spec fn dim_children(exprs: Seq<ExprView>, rank: Seq<nat>, e: ExprView, k: int, bound: nat) -> int
    decreases bound, e, k,
{
    if k <= 0 || k > e.values.len() {
        0
    } else {
        let d = match e.values[k - 1] {
            ChildView::Id(j) => if j < exprs.len() && rank.len() == exprs.len() && rank[j as int] < bound {
                dim_expr(exprs, rank, exprs[j as int], rank[j as int])
            } else {
                0
            },
            ChildView::Inline(b) => dim_expr(exprs, rank, *b, bound),
        };
        let m = dim_children(exprs, rank, e, k - 1, bound);
        if d > m { d } else { m }
    }
}

/// The dimension computation of `e` reaches only nodes whose dimension it
/// knows (a node with no recorded dimension must be of a kind with a fixed
/// dimension).
pub open spec fn dim_ok(exprs: Seq<ExprView>, rank: Seq<nat>, e: ExprView, bound: nat) -> bool
    decreases bound, e, e.values.len() + 1,
{
    if e.dim > 0 && !is_arith(e.op) {
        true
    } else {
        match e.op {
            ExprOp::Add | ExprOp::Sub | ExprOp::Mul => dim_children_ok(exprs, rank, e, e.values.len() as int, bound),
            ExprOp::Exp => {
                let j = exp_target(e);
                0 <= j < exprs.len() && rank.len() == exprs.len() && rank[j] < bound ==> dim_ok(
                    exprs,
                    rank,
                    exprs[j],
                    rank[j],
                )
            },
            ExprOp::Cm | ExprOp::Custom | ExprOp::Const | ExprOp::Number | ExprOp::Public | ExprOp::Zi
            | ExprOp::Challenge | ExprOp::Eval | ExprOp::XDivXSubXi => true,
            _ => false,
        }
    }
}

/// The dimension computation of the first `k` children is defined.
pub open spec fn dim_children_ok(exprs: Seq<ExprView>, rank: Seq<nat>, e: ExprView, k: int, bound: nat) -> bool
    decreases bound, e, k,
{
    if k <= 0 || k > e.values.len() {
        true
    } else {
        (match e.values[k - 1] {
            ChildView::Id(j) => j < exprs.len() && rank.len() == exprs.len() && rank[j as int] < bound
                ==> dim_ok(exprs, rank, exprs[j as int], rank[j as int]),
            ChildView::Inline(b) => dim_ok(exprs, rank, *b, bound),
        }) && dim_children_ok(exprs, rank, e, k - 1, bound)
    }
}

/// Dimension of arena entry `idx`.
pub open spec fn exp_dim(exprs: Seq<ExprView>, idx: int) -> int {
    let rank = canon_rank(exprs);
    dim_expr(exprs, rank, exprs[idx], rank[idx])
}

/// The dimension of arena entry `idx` is defined.
pub open spec fn exp_dim_ok(exprs: Seq<ExprView>, idx: int) -> bool {
    let rank = canon_rank(exprs);
    dim_ok(exprs, rank, exprs[idx], rank[idx])
}

fn get_exp_dim_inner(
    expressions: &[Expression],
    exp: &Expression,
    Ghost(rank): Ghost<Seq<nat>>,
    Ghost(bound): Ghost<nat>,
) -> (d: usize)
    requires
        ranked(arena_view(expressions@), rank),
        refs_below(arena_view(expressions@), rank, exp@, bound),
        dim_ok(arena_view(expressions@), rank, exp@, bound),
    ensures
        d == dim_expr(arena_view(expressions@), rank, exp@, bound),
    decreases bound, exp,
{
    let ghost av = arena_view(expressions@);
    proof {
        lemma_children_view(exp.values@);
    }
    let arith = match exp.op {
        ExprOp::Add | ExprOp::Sub | ExprOp::Mul => true,
        _ => false,
    };
    if exp.dim > 0 && !arith {
        return exp.dim;
    }
    match exp.op {
        ExprOp::Add | ExprOp::Sub | ExprOp::Mul => {
            let n = exp.values.len();
            let mut max_dim: usize = 0;
            let mut k: usize = 0;
            while k < n
                invariant
                    n == exp.values@.len(),
                    k <= n,
                    ranked(av, rank),
                    av == arena_view(expressions@),
                    refs_below(av, rank, exp@, bound),
                    dim_children_ok(av, rank, exp@, n as int, bound),
                    exp@.values.len() == n,
                    forall|i: int| 0 <= i < n ==> #[trigger] exp@.values[i] == exp.values@[i]@,
                    max_dim == dim_children(av, rank, exp@, k as int, bound),
                decreases n - k,
            {
                proof {
                    lemma_dim_children_ok_at(av, rank, exp@, k as int, n as int, bound);
                }
                let child_dim = match &exp.values[k] {
                    ExprChild::Id(id) => {
                        let j = *id;
                        proof {
                            assert(child_refers_to(exp@.values[k as int], j as int));
                            lemma_child_refs(exp@, k as int, j as int);
                            assert(av[j as int] == expressions@[j as int]@);
                        }
                        get_exp_dim_inner(expressions, &expressions[j], Ghost(rank), Ghost(rank[j as int]))
                    },
                    ExprChild::Inline(b) => {
                        proof {
                            assert forall|i: int| #[trigger] refers_to(b@, i) implies 0 <= i < av.len() && rank[i]
                                < bound by {
                                assert(child_refers_to(exp@.values[k as int], i));
                                lemma_child_refs(exp@, k as int, i);
                            }
                        }
                        assert(decreases_to!(exp => exp.values@[k as int]));
                        get_exp_dim_inner(expressions, &**b, Ghost(rank), Ghost(bound))
                    },
                };
                if child_dim > max_dim {
                    max_dim = child_dim;
                }
                k = k + 1;
            }
            max_dim
        },
        ExprOp::Exp => {
            let id = match exp.id {
                Some(i) => i,
                None => 0,
            };
            assert(refers_to(exp@, id as int));
            proof {
                assert(av[id as int] == expressions@[id as int]@);
            }
            get_exp_dim_inner(expressions, &expressions[id], Ghost(rank), Ghost(rank[id as int]))
        },
        ExprOp::Cm | ExprOp::Custom => {
            if exp.dim > 0 {
                exp.dim
            } else {
                1
            }
        },
        ExprOp::Const | ExprOp::Number | ExprOp::Public | ExprOp::Zi => 1,
        _ => FIELD_EXTENSION,
    }
}

proof fn lemma_dim_children_ok_at(exprs: Seq<ExprView>, rank: Seq<nat>, e: ExprView, k: int, n: int, bound: nat)
    requires
        0 <= k < n <= e.values.len(),
        dim_children_ok(exprs, rank, e, n, bound),
    ensures
        match e.values[k] {
            ChildView::Id(j) => j < exprs.len() && rank.len() == exprs.len() && rank[j as int] < bound
                ==> dim_ok(exprs, rank, exprs[j as int], rank[j as int]),
            ChildView::Inline(b) => dim_ok(exprs, rank, *b, bound),
        },
    decreases n,
{
    if k < n - 1 {
        lemma_dim_children_ok_at(exprs, rank, e, k, n - 1, bound);
    }
}

/// Field dimension of arena entry `exp_id`.
pub fn get_exp_dim(expressions: &[Expression], exp_id: usize) -> (d: usize)
    requires
        arena_wf(arena_view(expressions@)),
        exp_id < expressions@.len(),
        exp_dim_ok(arena_view(expressions@), exp_id as int),
    ensures
        d == exp_dim(arena_view(expressions@), exp_id as int),
{
    let ghost av = arena_view(expressions@);
    let ghost rank = canon_rank(av);
    proof {
        assert(ranked(av, rank));
        assert(av[exp_id as int] == expressions@[exp_id as int]@);
    }
    get_exp_dim_inner(expressions, &expressions[exp_id], Ghost(rank), Ghost(rank[exp_id as int]))
}


/// Field dimension of a node outside the arena that refers to no entry.
pub fn get_inline_dim(expressions: &[Expression], exp: &Expression) -> (d: usize)
    requires
        arena_wf(arena_view(expressions@)),
        forall|j: int| !#[trigger] refers_to(exp@, j),
        dim_ok(arena_view(expressions@), canon_rank(arena_view(expressions@)), exp@, 0),
    ensures
        d == dim_expr(arena_view(expressions@), canon_rank(arena_view(expressions@)), exp@, 0),
{
    let ghost av = arena_view(expressions@);
    let ghost rank = canon_rank(av);
    proof {
        assert(ranked(av, rank));
    }
    get_exp_dim_inner(expressions, exp, Ghost(rank), Ghost(0))
}


// ---------------------------------------------------------------------------
// Structural facts used by the annotation pass
// ---------------------------------------------------------------------------

/// Operations the annotation pass knows.
pub open spec fn info_known_op(op: ExprOp) -> bool {
    op != ExprOp::X && op != ExprOp::StringVal
}

/// Every node of `e` (inline descendants included) has a known operation.
pub open spec fn tree_known(e: ExprView) -> bool
    decreases e, e.values.len() + 1,
{
    info_known_op(e.op) && children_known(e, e.values.len() as int)
}

/// The first `k` children of `e` have known operations.
pub open spec fn children_known(e: ExprView, k: int) -> bool
    decreases e, k,
{
    if k <= 0 || k > e.values.len() {
        true
    } else {
        (match e.values[k - 1] {
            ChildView::Id(_) => true,
            ChildView::Inline(b) => tree_known(*b),
        }) && children_known(e, k - 1)
    }
}

/// An inline child has known operations; an `Id` child always has.
/// No node of `e` (inline descendants included) is a negation.
pub open spec fn tree_nn(e: ExprView) -> bool
    decreases e, e.values.len() + 1,
{
    e.op != ExprOp::Neg && children_nn(e, e.values.len() as int)
}

/// No node of the first `k` children of `e` is a negation.
pub open spec fn children_nn(e: ExprView, k: int) -> bool
    decreases e, k,
{
    if k <= 0 || k > e.values.len() {
        true
    } else {
        (match e.values[k - 1] {
            ChildView::Id(_) => true,
            ChildView::Inline(b) => tree_nn(*b),
        }) && children_nn(e, k - 1)
    }
}

/// No node of the child is a negation.
pub open spec fn child_nn(c: ChildView) -> bool {
    match c {
        ChildView::Id(_) => true,
        ChildView::Inline(b) => tree_nn(*b),
    }
}

/// No node of the arena is a negation.
pub open spec fn arena_nn(av: Seq<ExprView>) -> bool {
    forall|i: int| 0 <= i < av.len() ==> #[trigger] tree_nn(av[i])
}

pub open spec fn child_known(c: ChildView) -> bool {
    match c {
        ChildView::Id(_) => true,
        ChildView::Inline(b) => tree_known(*b),
    }
}

/// Height of the inline tree of `e` (an `Id` child counts as a leaf).
pub open spec fn height(e: ExprView) -> nat
    decreases e, e.values.len() + 1,
{
    1 + children_height(e, e.values.len() as int)
}

/// Largest height among the first `k` children.
pub open spec fn children_height(e: ExprView, k: int) -> nat
    decreases e, k,
{
    if k <= 0 || k > e.values.len() {
        0
    } else {
        let h = match e.values[k - 1] {
            ChildView::Id(_) => 1,
            ChildView::Inline(b) => height(*b),
        };
        let m = children_height(e, k - 1);
        if h > m { h } else { m }
    }
}

/// Height of a child.
pub open spec fn child_height(c: ChildView) -> nat {
    match c {
        ChildView::Id(_) => 1,
        ChildView::Inline(b) => height(*b),
    }
}

/// Every node of `e` has a dimension and an operation of known degree.
pub open spec fn tree_sane(e: ExprView) -> bool
    decreases e, e.values.len() + 1,
{
    e.dim >= 1 && crate::constraint_poly::deg_known_op(e.op) && children_sane(e, e.values.len() as int)
}

/// The first `k` children of `e` are sane.
pub open spec fn children_sane(e: ExprView, k: int) -> bool
    decreases e, k,
{
    if k <= 0 || k > e.values.len() {
        true
    } else {
        (match e.values[k - 1] {
            ChildView::Id(_) => true,
            ChildView::Inline(b) => tree_sane(*b),
        }) && children_sane(e, k - 1)
    }
}

/// An inline child is sane; an `Id` child always is.
pub open spec fn child_sane(c: ChildView) -> bool {
    match c {
        ChildView::Id(_) => true,
        ChildView::Inline(b) => tree_sane(*b),
    }
}

/// Every node of the arena is sane.
pub open spec fn arena_sane(av: Seq<ExprView>) -> bool {
    forall|i: int| 0 <= i < av.len() ==> #[trigger] tree_sane(av[i])
}

proof fn lemma_children_pointwise(e: ExprView, n: int)
    requires
        0 <= n <= e.values.len(),
    ensures
        children_known(e, n) <==> forall|k: int| 0 <= k < n ==> #[trigger] child_known(e.values[k]),
        children_nn(e, n) <==> forall|k: int| 0 <= k < n ==> #[trigger] child_nn(e.values[k]),
        children_shaped(e, n) <==> forall|k: int| 0 <= k < n ==> #[trigger] child_well_shaped(e.values[k]),
        children_sane(e, n) <==> forall|k: int| 0 <= k < n ==> #[trigger] child_sane(e.values[k]),
        forall|k: int| 0 <= k < n ==> #[trigger] child_height(e.values[k]) <= children_height(e, n),
        forall|j: int| children_refer_to(e, n, j) <==> exists|k: int| 0 <= k < n && #[trigger] child_refers_to(e.values[k], j),
    decreases n,
{
    if n > 0 {
        lemma_children_pointwise(e, n - 1);
        let last = e.values[n - 1];
        assert(children_known(e, n) == (child_known(last) && children_known(e, n - 1)));
        assert(children_nn(e, n) == (child_nn(last) && children_nn(e, n - 1)));
        assert forall|k: int| 0 <= k < n implies #[trigger] child_nn(e.values[k]) == (k == n - 1 && child_nn(last)
            || k < n - 1 && child_nn(e.values[k])) by {}
        assert(children_shaped(e, n) == (child_well_shaped(last) && children_shaped(e, n - 1)));
        assert(children_sane(e, n) == (child_sane(last) && children_sane(e, n - 1)));
        assert(children_height(e, n) >= child_height(last));
        assert(children_height(e, n) >= children_height(e, n - 1));
        assert forall|j: int| children_refer_to(e, n, j) <==> exists|k: int| 0 <= k < n && #[trigger] child_refers_to(
            e.values[k],
            j,
        ) by {
            assert(children_refer_to(e, n, j) == (child_refers_to(last, j) || children_refer_to(e, n - 1, j)));
            if children_refer_to(e, n, j) {
                if child_refers_to(last, j) {
                    assert(child_refers_to(e.values[n - 1], j));
                } else {
                    let k = choose|k: int| 0 <= k < n - 1 && #[trigger] child_refers_to(e.values[k], j);
                    assert(child_refers_to(e.values[k], j));
                }
            }
            if exists|k: int| 0 <= k < n && #[trigger] child_refers_to(e.values[k], j) {
                let k = choose|k: int| 0 <= k < n && #[trigger] child_refers_to(e.values[k], j);
                if k < n - 1 {
                    assert(exists|k2: int| 0 <= k2 < n - 1 && #[trigger] child_refers_to(e.values[k2], j));
                }
            }
        }
        assert forall|k: int| 0 <= k < n implies #[trigger] child_known(e.values[k]) == (k == n - 1 && child_known(last)
            || k < n - 1 && child_known(e.values[k])) by {}
    }
}

/// The pointwise reading of the structural predicates of a node.
pub proof fn lemma_node_pointwise(e: ExprView)
    ensures
        tree_known(e) <==> info_known_op(e.op) && forall|k: int| 0 <= k < e.values.len() ==> #[trigger] child_known(e.values[k]),
        tree_nn(e) <==> e.op != ExprOp::Neg && forall|k: int| 0 <= k < e.values.len() ==> #[trigger] child_nn(e.values[k]),
        tree_sane(e) <==> e.dim >= 1 && crate::constraint_poly::deg_known_op(e.op) && forall|k: int| 0 <= k < e.values.len()
            ==> #[trigger] child_sane(e.values[k]),
        well_shaped(e) <==> e.values.len() >= crate::expression::arity(e.op) && forall|k: int| 0 <= k < e.values.len()
            ==> #[trigger] child_well_shaped(e.values[k]),
        forall|k: int| 0 <= k < e.values.len() ==> #[trigger] child_height(e.values[k]) < height(e),
        forall|j: int| refers_to(e, j) <==> ((e.op == ExprOp::Exp && exp_target(e) == j) || exists|k: int| 0 <= k
            < e.values.len() && #[trigger] child_refers_to(e.values[k], j)),
{
    lemma_children_pointwise(e, e.values.len() as int);
    assert forall|j: int| refers_to(e, j) <==> ((e.op == ExprOp::Exp && exp_target(e) == j) || exists|k: int| 0 <= k
        < e.values.len() && #[trigger] child_refers_to(e.values[k], j)) by {
        assert(refers_to(e, j) == ((e.op == ExprOp::Exp && exp_target(e) == j) || children_refer_to(
            e,
            e.values.len() as int,
            j,
        )));
    }
}

/// A node whose children are those of another has the same structural
/// predicates over them.
proof fn lemma_same_children(e1: ExprView, e2: ExprView, n: int)
    requires
        e1.values == e2.values,
        0 <= n <= e1.values.len(),
    ensures
        children_known(e1, n) == children_known(e2, n),
        children_nn(e1, n) == children_nn(e2, n),
        children_shaped(e1, n) == children_shaped(e2, n),
        children_sane(e1, n) == children_sane(e2, n),
        children_height(e1, n) == children_height(e2, n),
        forall|j: int| children_refer_to(e1, n, j) == children_refer_to(e2, n, j),
    decreases n,
{
    if n > 0 {
        lemma_same_children(e1, e2, n - 1);
        assert forall|j: int| children_refer_to(e1, n, j) == children_refer_to(e2, n, j) by {
            assert(children_refer_to(e1, n - 1, j) == children_refer_to(e2, n - 1, j));
        }
    }
}

/// Ranks of an arena that has grown by appending: the new entries get rank 0.
pub open spec fn ext_rank(rank: Seq<nat>, n: nat) -> Seq<nat> {
    Seq::new(n, |i: int| if i < rank.len() { rank[i] } else { 0nat })
}

/// The invariant the annotation pass keeps: nodes are well shaped, have known
/// operations, references are ranked, and rank-0 nodes are not negations.
pub open spec fn info_inv(av: Seq<ExprView>, rank: Seq<nat>) -> bool {
    &&& ranked(av, rank)
    &&& forall|i: int| 0 <= i < av.len() ==> #[trigger] well_shaped(av[i])
    &&& forall|i: int| 0 <= i < av.len() ==> #[trigger] tree_known(av[i])
    &&& forall|i: int| 0 <= i < av.len() && rank[i] == 0 ==> #[trigger] av[i].op != ExprOp::Neg
}

/// The annotation fields of two nodes agree.
pub open spec fn same_info(a: ExprView, b: ExprView) -> bool {
    &&& a.exp_deg == b.exp_deg
    &&& a.dim == b.dim
    &&& a.stage == b.stage
    &&& a.rows_offsets == b.rows_offsets
    &&& a.info_computed == b.info_computed
}

/// What a step of the pass may do to the arena: append, change nodes of
/// rank below `bound`, and never change the annotation of an annotated node.
pub open spec fn info_step(o: Seq<ExprView>, n: Seq<ExprView>, rank: Seq<nat>, bound: nat) -> bool {
    &&& n.len() >= o.len()
    &&& forall|i: int| 0 <= i < o.len() && rank[i] >= bound ==> #[trigger] n[i] == o[i]
    &&& forall|i: int| 0 <= i < o.len() && o[i].info_computed ==> #[trigger] kept(n[i], o[i])
    &&& forall|i: int| 0 <= i < o.len() ==> #[trigger] entry_shape(o[i], n[i])
}

/// A node keeps its identity, and (unless it is a negation) the identity of
/// each of its children.
pub open spec fn entry_shape(o: ExprView, n: ExprView) -> bool {
    &&& node_shape(o, n)
    &&& o.op != ExprOp::Neg ==> n.values.len() == o.values.len() && forall|k: int| 0 <= k < o.values.len() ==> child_shape(
        o.values[k],
        #[trigger] n.values[k],
    )
}

/// An annotated node stays as it is, except that a `number` may have its
/// value set to one.
pub open spec fn kept(n: ExprView, o: ExprView) -> bool {
    n == o || (o.op == ExprOp::Number && n == ExprView { value: Some("1"@), ..o })
}

// ---------------------------------------------------------------------------
// What the annotation pass computes
// ---------------------------------------------------------------------------

/// The node a child denotes.
pub open spec fn resolve_view(av: Seq<ExprView>, c: ChildView) -> ExprView {
    match c {
        ChildView::Id(j) => av[j as int],
        ChildView::Inline(b) => *b,
    }
}

/// A `number` node with value `0`.
pub open spec fn is_zero_number(x: ExprView) -> bool {
    x.op == ExprOp::Number && x.value == Some("0"@)
}

/// The operation of an arithmetic node after the pass: `neg` becomes a
/// multiplication by -1, and an addition (or subtraction) of a literal zero
/// becomes a multiplication by one.
pub open spec fn rewritten_op(av: Seq<ExprView>, e: ExprView) -> ExprOp {
    let lhs_zero = e.op == ExprOp::Add && is_zero_number(resolve_view(av, e.values[0]));
    let rhs_zero = !lhs_zero && (e.op == ExprOp::Add || e.op == ExprOp::Sub) && is_zero_number(
        resolve_view(av, e.values[1]),
    );
    if e.op == ExprOp::Neg || lhs_zero || rhs_zero {
        ExprOp::Mul
    } else {
        e.op
    }
}

/// The row offsets a child contributes (`[0]` when it has none).
pub open spec fn offs(e: ExprView) -> Seq<i64> {
    if e.rows_offsets.len() == 0 {
        seq![0i64]
    } else {
        e.rows_offsets
    }
}

/// `a` followed by the elements of `b` not already present.
pub open spec fn merge(a: Seq<i64>, b: Seq<i64>) -> Seq<i64>
    decreases b.len(),
{
    if b.len() == 0 {
        a
    } else {
        let m = merge(a, b.drop_last());
        if m.contains(b.last()) {
            m
        } else {
            m.push(b.last())
        }
    }
}

/// `a + b`, clamped to the range of `i64`.
pub open spec fn sat_add(a: i64, b: i64) -> i64 {
    if a + b > i64::MAX {
        i64::MAX
    } else if a + b < i64::MIN {
        i64::MIN
    } else {
        (a + b) as i64
    }
}

pub open spec fn max_i64(a: i64, b: i64) -> i64 {
    if a >= b { a } else { b }
}

pub open spec fn max_usize(a: usize, b: usize) -> usize {
    if a >= b { a } else { b }
}

/// The dimension a small node defaults to: 1, or 3 outside stage 1 for
/// air/airgroup/proof values.
pub open spec fn default_dim(e: ExprView, ext: bool) -> usize {
    if e.dim <= 1 {
        if ext && e.stage != 1 { FIELD_EXTENSION } else { 1 }
    } else {
        e.dim
    }
}

/// Annotation of a node that refers to nothing.
pub open spec fn leaf_info(e: ExprView) -> ExprView {
    match e.op {
        ExprOp::Cm | ExprOp::Custom | ExprOp::Const => ExprView {
            exp_deg: 1,
            stage: if e.stage == 0 || e.op == ExprOp::Const {
                if e.op == ExprOp::Cm { 1 } else { 0 }
            } else {
                e.stage
            },
            dim: if e.dim == 0 || e.dim == 1 { 1 } else { e.dim },
            rows_offsets: match e.row_offset {
                Some(r) => seq![r],
                None => e.rows_offsets,
            },
            info_computed: true,
            ..e
        },
        ExprOp::Zi => if e.boundary != Some(crate::expression::BoundaryKind::EveryRow) {
            ExprView { exp_deg: 1, info_computed: true, ..e }
        } else {
            ExprView { exp_deg: 0, stage: 0, dim: default_dim(e, false), info_computed: true, ..e }
        },
        ExprOp::XDivXSubXi => ExprView { exp_deg: 1, info_computed: true, ..e },
        ExprOp::Challenge | ExprOp::Eval => ExprView {
            exp_deg: 0,
            dim: FIELD_EXTENSION,
            info_computed: true,
            ..e
        },
        ExprOp::Airgroupvalue | ExprOp::Proofvalue | ExprOp::Airvalue => ExprView {
            exp_deg: 0,
            dim: default_dim(e, true),
            info_computed: true,
            ..e
        },
        ExprOp::Public => ExprView { exp_deg: 0, stage: 1, dim: default_dim(e, false), info_computed: true, ..e },
        _ => ExprView { exp_deg: 0, stage: 0, dim: default_dim(e, false), info_computed: true, ..e },
    }
}

/// Annotation of an `exp` node from the node it refers to.
pub open spec fn exp_info(e: ExprView, r: ExprView) -> ExprView {
    ExprView {
        exp_deg: r.exp_deg,
        rows_offsets: r.rows_offsets,
        dim: if e.dim <= 1 { r.dim } else { e.dim },
        stage: if e.stage == 0 { r.stage } else { e.stage },
        info_computed: true,
        ..e
    }
}

/// The pass keeps a node's identity: its target, its boundary, and its
/// operation (an arithmetic one may become a multiplication).
pub open spec fn node_shape(e0: ExprView, e1: ExprView) -> bool {
    &&& e1.id == e0.id
    &&& e1.im_pol == e0.im_pol
    &&& e1.pol_id == e0.pol_id
    &&& e1.boundary == e0.boundary
    &&& e1.boundary_id == e0.boundary_id
    &&& (e1.op == e0.op || ((is_arith(e0.op) || e0.op == ExprOp::Neg) && e1.op == ExprOp::Mul))
}

/// A child keeps its identity through the pass.
pub open spec fn child_shape(c0: ChildView, c1: ChildView) -> bool {
    match c0 {
        ChildView::Id(a) => c1 == ChildView::Id(a),
        ChildView::Inline(x) => c1 matches ChildView::Inline(y) && node_shape(*x, *y),
    }
}

/// The annotation of an arithmetic node `e1` (formerly `e0`) from its two
/// annotated operands.
pub open spec fn bin_result(o: Seq<ExprView>, n: Seq<ExprView>, e0: ExprView, e1: ExprView) -> bool {
    let l = resolve_view(n, e1.values[0]);
    let r = resolve_view(n, e1.values[1]);
    &&& e1.values.len() >= 2
    &&& e1.values.len() == if e0.op == ExprOp::Neg { 2 } else { e0.values.len() }
    &&& e1.op == rewritten_op(o, e0)
    &&& l.info_computed && r.info_computed
    &&& e1.exp_deg == if e1.op == ExprOp::Mul { sat_add(l.exp_deg, r.exp_deg) } else { max_i64(l.exp_deg, r.exp_deg) }
    &&& e1.dim == max_usize(l.dim, r.dim)
    &&& e1.stage == max_usize(l.stage, r.stage)
    &&& e1.rows_offsets == merge(offs(l), offs(r))
    &&& e1.id == e0.id && e1.boundary == e0.boundary && e1.row_offset == e0.row_offset
    &&& e1.boundary_id == e0.boundary_id
    &&& e0.op != ExprOp::Neg ==> forall|k: int| 0 <= k < e1.values.len() ==> child_shape(e0.values[k], #[trigger] e1.values[k])
    &&& e0.op == ExprOp::Neg ==> child_shape(e0.values[0], e1.values[1])
}

/// The annotation the pass gives node `e0` (which becomes `e1`), arena `o`
/// before and `n` after.
pub open spec fn info_result(o: Seq<ExprView>, n: Seq<ExprView>, e0: ExprView, e1: ExprView) -> bool {
    &&& e1.info_computed
    &&& match e0.op {
        ExprOp::Exp => e1 == exp_info(e0, n[exp_target(e0)]),
        ExprOp::Add | ExprOp::Sub | ExprOp::Mul | ExprOp::Neg => bin_result(o, n, e0, e1),
        _ => e1 == leaf_info(e0),
    }
}


// ---------------------------------------------------------------------------
// The annotation pass
// ---------------------------------------------------------------------------

/// The Goldilocks field element -1 (p - 1), in decimal.
pub open spec fn neg_one_spec() -> Seq<char> {
    "18446744069414584320"@
}

fn neg_one_string() -> (s: String)
    ensures
        s@ == neg_one_spec(),
{
    String::from_str("18446744069414584320")
}

fn one_string() -> (s: String)
    ensures
        s@ == "1"@,
{
    String::from_str("1")
}

/// `true` when `e` is a `number` node with value `0`.
fn is_zero_value(e: &Expression) -> (b: bool)
    ensures
        b == is_zero_number(e@),
{
    match e.op {
        ExprOp::Number => {},
        _ => {
            return false;
        },
    }
    match &e.value {
        Some(v) => crate::text::str_is(v.as_str(), "0"),
        None => false,
    }
}

fn copy_offsets(v: &Vec<i64>) -> (r: Vec<i64>)
    ensures
        r@ == v@,
{
    let mut r: Vec<i64> = Vec::new();
    let mut i: usize = 0;
    while i < v.len()
        invariant
            i <= v@.len(),
            r@ == v@.subrange(0, i as int),
        decreases v.len() - i,
    {
        r.push(v[i]);
        proof {
            assert(r@ =~= v@.subrange(0, i as int + 1));
        }
        i = i + 1;
    }
    proof {
        assert(r@ =~= v@);
    }
    r
}

/// The row offsets a node contributes to its parent.
fn offsets_of(e: &Expression) -> (r: Vec<i64>)
    ensures
        r@ == offs(e@),
{
    if e.rows_offsets.len() == 0 {
        let mut r: Vec<i64> = Vec::new();
        r.push(0);
        proof {
            assert(r@ =~= seq![0i64]);
        }
        r
    } else {
        copy_offsets(&e.rows_offsets)
    }
}

fn offsets_contain(v: &Vec<i64>, x: i64) -> (b: bool)
    ensures
        b == v@.contains(x),
{
    let mut i: usize = 0;
    while i < v.len()
        invariant
            i <= v@.len(),
            forall|k: int| 0 <= k < i ==> v@[k] != x,
        decreases v.len() - i,
    {
        if v[i] == x {
            proof {
                assert(v@[i as int] == x);
            }
            return true;
        }
        i = i + 1;
    }
    false
}

/// `a` followed by the offsets of `b` it does not already hold.
fn merge_offsets(a: Vec<i64>, b: &Vec<i64>) -> (r: Vec<i64>)
    ensures
        r@ == merge(a@, b@),
{
    let ghost a0 = a@;
    let mut merged = a;
    let mut i: usize = 0;
    proof {
        assert(b@.subrange(0, 0).len() == 0);
    }
    while i < b.len()
        invariant
            i <= b@.len(),
            merged@ == merge(a0, b@.subrange(0, i as int)),
        decreases b.len() - i,
    {
        let o = b[i];
        proof {
            let s = b@.subrange(0, i as int + 1);
            assert(s.drop_last() =~= b@.subrange(0, i as int));
            assert(s.last() == o);
        }
        if !offsets_contain(&merged, o) {
            merged.push(o);
        }
        i = i + 1;
    }
    proof {
        assert(b@.subrange(0, b@.len() as int) =~= b@);
    }
    merged
}

fn sat_add_i64(a: i64, b: i64) -> (r: i64)
    ensures
        r == sat_add(a, b),
{
    let s: i128 = a as i128 + b as i128;
    if s > i64::MAX as i128 {
        i64::MAX
    } else if s < i64::MIN as i128 {
        i64::MIN
    } else {
        s as i64
    }
}

/// A child the pass has finished with.
pub open spec fn child_done(av: Seq<ExprView>, c: ChildView) -> bool {
    match c {
        ChildView::Id(j) => j < av.len() && av[j as int].info_computed,
        ChildView::Inline(b) => b.info_computed && well_shaped(*b) && tree_known(*b),
    }
}

/// What holds of a node after the pass, whatever its operation: it is
/// annotated, well shaped, of known operations, and refers only to what it
/// referred to before (plus, for a negation stored in the arena, the new
/// constant `-1`).
pub open spec fn node_after(o: Seq<ExprView>, n: Seq<ExprView>, e0: ExprView, e1: ExprView, in_arena: bool) -> bool {
    &&& well_shaped(e1)
    &&& tree_known(e1)
    &&& node_shape(e0, e1)
    &&& forall|j: int| #[trigger] refers_to(e1, j) ==> refers_to(e0, j) || (in_arena && e0.op == ExprOp::Neg && o.len()
        <= j < n.len())
}

proof fn lemma_child_shape_trans(x: ChildView, y: ChildView, z: ChildView)
    requires
        child_shape(x, y),
        child_shape(y, z),
    ensures
        child_shape(x, z),
{
}

proof fn lemma_child_shape_refl(x: ChildView)
    ensures
        child_shape(x, x),
{
}

pub(crate) proof fn lemma_entry_shape_trans(a: ExprView, b: ExprView, c: ExprView)
    requires
        entry_shape(a, b),
        entry_shape(b, c),
    ensures
        entry_shape(a, c),
{
    if a.op != ExprOp::Neg {
        assert(b.op != ExprOp::Neg);
        assert forall|k: int| 0 <= k < a.values.len() implies child_shape(a.values[k], #[trigger] c.values[k]) by {
            assert(child_shape(a.values[k], b.values[k]));
            assert(child_shape(b.values[k], c.values[k]));
            lemma_child_shape_trans(a.values[k], b.values[k], c.values[k]);
        }
    }
}

pub(crate) proof fn lemma_entry_shape_refl(a: ExprView)
    ensures
        entry_shape(a, a),
{
    assert forall|k: int| 0 <= k < a.values.len() implies child_shape(a.values[k], #[trigger] a.values[k]) by {
        lemma_child_shape_refl(a.values[k]);
    }
}

proof fn lemma_step_trans(a: Seq<ExprView>, b: Seq<ExprView>, c: Seq<ExprView>, rank: Seq<nat>, bound1: nat, bound2: nat, bound: nat)
    requires
        rank.len() == a.len(),
        info_step(a, b, rank, bound1),
        info_step(b, c, ext_rank(rank, b.len()), bound2),
        bound1 <= bound,
        bound2 <= bound,
    ensures
        info_step(a, c, rank, bound),
{
    assert forall|i: int| 0 <= i < a.len() && rank[i] >= bound implies #[trigger] c[i] == a[i] by {
        assert(ext_rank(rank, b.len())[i] == rank[i]);
    }
    assert forall|i: int| 0 <= i < a.len() && a[i].info_computed implies #[trigger] kept(c[i], a[i]) by {
        assert(kept(b[i], a[i]));
        assert(b[i].info_computed);
        assert(kept(c[i], b[i]));
    }
    assert forall|i: int| 0 <= i < a.len() implies #[trigger] entry_shape(a[i], c[i]) by {
        assert(entry_shape(a[i], b[i]));
        assert(entry_shape(b[i], c[i]));
        lemma_entry_shape_trans(a[i], b[i], c[i]);
    }
}

proof fn lemma_ext_rank_ext(rank: Seq<nat>, m: nat, n: nat)
    requires
        rank.len() <= m <= n,
    ensures
        ext_rank(ext_rank(rank, m), n) == ext_rank(rank, n),
{
    assert(ext_rank(ext_rank(rank, m), n) =~= ext_rank(rank, n));
}

/// Annotates a node that refers to nothing.
fn annotate_leaf(e: &mut Expression)
    requires
        !(is_arith(old(e).op) || old(e).op == ExprOp::Neg || old(e).op == ExprOp::Exp),
    ensures
        final(e)@ == leaf_info(old(e)@),
        final(e).values@ == old(e).values@,
        final(e).info_computed,
{
    let ghost e0 = e@;
    match e.op {
        ExprOp::Cm | ExprOp::Custom | ExprOp::Const => {
            let is_cm = match e.op {
                ExprOp::Cm => true,
                _ => false,
            };
            let is_const = match e.op {
                ExprOp::Const => true,
                _ => false,
            };
            e.exp_deg = 1;
            if e.stage == 0 || is_const {
                e.stage = if is_cm { 1 } else { 0 };
            }
            if e.dim == 0 || e.dim == 1 {
                e.dim = 1;
            }
            match e.row_offset {
                Some(r) => {
                    let mut v: Vec<i64> = Vec::new();
                    v.push(r);
                    e.rows_offsets = v;
                },
                None => {},
            }
        },
        ExprOp::Zi => {
            let every_row = match e.boundary {
                Some(crate::expression::BoundaryKind::EveryRow) => true,
                _ => false,
            };
            if !every_row {
                e.exp_deg = 1;
            } else {
                e.exp_deg = 0;
                e.stage = 0;
                if e.dim <= 1 {
                    e.dim = 1;
                }
            }
        },
        ExprOp::XDivXSubXi => {
            e.exp_deg = 1;
        },
        ExprOp::Challenge | ExprOp::Eval => {
            e.exp_deg = 0;
            e.dim = FIELD_EXTENSION;
        },
        ExprOp::Airgroupvalue | ExprOp::Proofvalue | ExprOp::Airvalue => {
            e.exp_deg = 0;
            if e.dim <= 1 {
                e.dim = if e.stage != 1 { FIELD_EXTENSION } else { 1 };
            }
        },
        ExprOp::Public => {
            e.exp_deg = 0;
            e.stage = 1;
            if e.dim <= 1 {
                e.dim = 1;
            }
        },
        _ => {
            e.exp_deg = 0;
            e.stage = 0;
            if e.dim <= 1 {
                e.dim = 1;
            }
        },
    }
    e.info_computed = true;
    proof {
        lemma_children_view(e.values@);
        assert(e@ == leaf_info(e0));
    }
}

/// Annotates node `e`, which is either an arena entry taken out of the arena
/// (`in_arena`) or an inline node.
fn info_node(
    expressions: &mut Vec<Expression>,
    e: &mut Expression,
    in_arena: bool,
    Ghost(rank): Ghost<Seq<nat>>,
    Ghost(bound): Ghost<nat>,
    Ghost(h): Ghost<nat>,
    Ghost(sm): Ghost<bool>,
    Ghost(nn): Ghost<bool>,
)
    requires
        sm ==> arena_sane(arena_view(old(expressions)@)),
        sm ==> tree_sane(old(e)@),
        nn ==> arena_nn(arena_view(old(expressions)@)) && tree_nn(old(e)@),
        info_inv(arena_view(old(expressions)@), rank),
        rank.len() == old(expressions)@.len(),
        well_shaped(old(e)@),
        tree_known(old(e)@),
        refs_below(arena_view(old(expressions)@), rank, old(e)@, bound),
        in_arena && old(e).op == ExprOp::Neg ==> bound >= 1,
        h == height(old(e)@),
    ensures
        info_inv(arena_view(final(expressions)@), ext_rank(rank, final(expressions)@.len())),
        sm ==> arena_sane(arena_view(final(expressions)@)),
        info_step(arena_view(old(expressions)@), arena_view(final(expressions)@), rank, bound),
        node_after(arena_view(old(expressions)@), arena_view(final(expressions)@), old(e)@, final(e)@, in_arena),
        sm ==> tree_sane(final(e)@),
        nn ==> arena_nn(arena_view(final(expressions)@)) && final(expressions)@.len() == old(expressions)@.len() && tree_nn(
            final(e)@,
        ),
        old(e).info_computed ==> final(e)@ == old(e)@ && final(expressions)@ == old(expressions)@,
        !old(e).info_computed ==> info_result(
            arena_view(old(expressions)@),
            arena_view(final(expressions)@),
            old(e)@,
            final(e)@,
        ),
        final(e).info_computed,
    decreases bound, h, 2nat,
{
    let ghost o = arena_view(expressions@);
    let ghost e0 = e@;
    proof {
        assert(ext_rank(rank, o.len()) =~= rank);
        lemma_children_view(e.values@);
    }
    if e.info_computed {
        return;
    }
    proof {
        lemma_node_pointwise(e0);
    }
    match e.op {
        ExprOp::Exp => {
            let ref_id = match e.id {
                Some(i) => i,
                None => 0,
            };
            assert(refers_to(e0, ref_id as int));
            proof {
                assert(o[ref_id as int] == expressions@[ref_id as int]@);
            }
            info_arena(expressions, ref_id, Ghost(rank), Ghost(height(o[ref_id as int])), Ghost(sm), Ghost(nn));
            let rd = expressions[ref_id].exp_deg;
            let ro = copy_offsets(&expressions[ref_id].rows_offsets);
            let rdim = expressions[ref_id].dim;
            let rst = expressions[ref_id].stage;
            e.exp_deg = rd;
            e.rows_offsets = ro;
            if e.dim <= 1 {
                e.dim = rdim;
            }
            if e.stage == 0 {
                e.stage = rst;
            }
            e.info_computed = true;
            proof {
                let n = arena_view(expressions@);
                assert(n[ref_id as int] == expressions@[ref_id as int]@);
                lemma_children_view(e.values@);
                assert(e@.values == e0.values);
                assert(e@ == exp_info(e0, n[exp_target(e0)]));
                lemma_same_structure(e0, e@);
                if sm {
                    assert(tree_sane(n[ref_id as int]));
                    lemma_node_pointwise(e0);
                    lemma_node_pointwise(e@);
                    assert(tree_sane(e@));
                }
            }
        },
        ExprOp::Add | ExprOp::Sub | ExprOp::Mul | ExprOp::Neg => {
            handle_binary_or_neg(expressions, e, in_arena, Ghost(rank), Ghost(bound), Ghost(h), Ghost(sm), Ghost(nn));
            let ghost emid = e@;
            e.info_computed = true;
            proof {
                lemma_children_view(e.values@);
                assert(e@ == ExprView { info_computed: true, ..emid });
                lemma_same_structure(emid, e@);
            }
        },
        _ => {
            annotate_leaf(e);
            proof {
                lemma_children_view(e.values@);
                assert(e@.values == e0.values);
                lemma_same_structure(e0, e@);
                if sm {
                    lemma_node_pointwise(e0);
                    lemma_node_pointwise(e@);
                    assert(e@.dim >= 1);
                    assert(tree_sane(e@));
                }
            }
        },
    }
}

/// Facts about a child of an arithmetic node once its operation has been
/// rewritten, before its operands are annotated.
pub open spec fn ready_child(
    o: Seq<ExprView>,
    o2: Seq<ExprView>,
    r2: Seq<nat>,
    bound: nat,
    h: nat,
    e0: ExprView,
    c: ChildView,
    in_arena: bool,
    sm: bool,
    nn: bool,
) -> bool {
    &&& sm ==> child_sane(c)
    &&& nn ==> child_nn(c)
    &&& child_well_shaped(c)
    &&& child_known(c)
    &&& child_height(c) < h
    &&& forall|j: int| #[trigger] child_refers_to(c, j) ==> refers_to(e0, j) || (in_arena && e0.op == ExprOp::Neg
        && o.len() <= j < o2.len())
    &&& forall|j: int| #[trigger] child_refers_to(c, j) ==> 0 <= j < o2.len() && r2[j] < bound
}

/// The state of an arithmetic node (and the arena) once negations and
/// additions of zero have been rewritten.
pub open spec fn ready(
    o: Seq<ExprView>,
    rank: Seq<nat>,
    bound: nat,
    h: nat,
    e0: ExprView,
    o2: Seq<ExprView>,
    e2: ExprView,
    in_arena: bool,
    sm: bool,
    nn: bool,
) -> bool {
    let r2 = ext_rank(rank, o2.len());
    &&& info_inv(o2, r2)
    &&& sm ==> arena_sane(o2)
    &&& nn ==> arena_nn(o2) && o2.len() == o.len() && e2.op != ExprOp::Neg
    &&& info_step(o, o2, rank, bound)
    &&& e2.values.len() == if e0.op == ExprOp::Neg { 2 } else { e0.values.len() }
    &&& e2.values.len() >= 2
    &&& same_but_values(ExprView { op: e2.op, ..e0 }, e2)
    &&& forall|k: int| 0 <= k < e2.values.len() ==> ready_child(o, o2, r2, bound, h, e0, #[trigger] e2.values[k], in_arena, sm, nn)
    &&& e0.op != ExprOp::Neg ==> forall|k: int| 0 <= k < e2.values.len() ==> child_shape(e0.values[k], #[trigger] e2.values[k])
    &&& e0.op == ExprOp::Neg ==> e2.values[1] == e0.values[0]
}

/// Two nodes with the same operation, target and children have the same
/// structure.
proof fn lemma_same_structure(e1: ExprView, e2: ExprView)
    requires
        e1.values == e2.values,
        e1.op == e2.op,
        e1.id == e2.id,
    ensures
        well_shaped(e1) == well_shaped(e2),
        tree_known(e1) == tree_known(e2),
        tree_nn(e1) == tree_nn(e2),
        height(e1) == height(e2),
        forall|j: int| refers_to(e1, j) == refers_to(e2, j),
        e1.dim == e2.dim ==> tree_sane(e1) == tree_sane(e2),
{
    lemma_same_children(e1, e2, e1.values.len() as int);
    assert forall|j: int| refers_to(e1, j) == refers_to(e2, j) by {
        assert(children_refer_to(e1, e1.values.len() as int, j) == children_refer_to(e2, e2.values.len() as int, j));
    }
}

/// Changing only the value of a node keeps its structure and annotation.
proof fn lemma_one_valued(x: ExprView)
    ensures
        well_shaped(one_valued(x)) == well_shaped(x),
        tree_known(one_valued(x)) == tree_known(x),
        tree_nn(one_valued(x)) == tree_nn(x),
        tree_sane(one_valued(x)) == tree_sane(x),
        height(one_valued(x)) == height(x),
        forall|j: int| refers_to(one_valued(x), j) == refers_to(x, j),
        same_info(one_valued(x), x),
        one_valued(x).op == x.op,
{
    lemma_same_structure(one_valued(x), x);
}

/// A childless `number` node.
proof fn lemma_leaf_facts(x: ExprView)
    requires
        x.values.len() == 0,
        x.op == ExprOp::Number,
    ensures
        well_shaped(x),
        tree_known(x),
        tree_nn(x),
        x.dim >= 1 ==> tree_sane(x),
        height(x) == 1,
        forall|j: int| !refers_to(x, j),
{
    lemma_node_pointwise(x);
}

/// Every `Id` child of `e` is in bounds and of rank below `bound`.
proof fn lemma_ids_in_bounds(o: Seq<ExprView>, rank: Seq<nat>, e: ExprView, bound: nat)
    requires
        refs_below(o, rank, e, bound),
    ensures
        forall|k: int, j: int| 0 <= k < e.values.len() && #[trigger] child_refers_to(e.values[k], j) ==> 0 <= j < o.len()
            && rank[j] < bound && refers_to(e, j),
{
    lemma_node_pointwise(e);
    assert forall|k: int, j: int| 0 <= k < e.values.len() && #[trigger] child_refers_to(e.values[k], j) implies 0 <= j
        < o.len() && rank[j] < bound && refers_to(e, j) by {
        assert(refers_to(e, j));
    }
}

/// Setting a child's value to one keeps the node ready.
proof fn lemma_ready_set_one(
    o: Seq<ExprView>,
    rank: Seq<nat>,
    bound: nat,
    h: nat,
    e0: ExprView,
    o1: Seq<ExprView>,
    e1: ExprView,
    o3: Seq<ExprView>,
    e3: ExprView,
    k: int,
    in_arena: bool,
    sm: bool,
    nn: bool,
)
    requires
        ready(o, rank, bound, h, e0, o1, e1, in_arena, sm, nn),
        0 <= k < e1.values.len(),
        child_set_one(o1, o3, ExprView { op: ExprOp::Mul, ..e1 }, e3, k),
        rank.len() == o.len(),
        e1.values[k] is Id ==> o1[e1.values[k]->Id_0 as int].op == ExprOp::Number,
        e0.op != ExprOp::Neg,
    ensures
        ready(o, rank, bound, h, e0, o3, e3, in_arena, sm, nn),
        e3.op == ExprOp::Mul,
        o3.len() == o1.len(),
{
    let r1 = ext_rank(rank, o1.len());
    let e1m = ExprView { op: ExprOp::Mul, ..e1 };
    assert(e1m.values == e1.values);
    assert forall|m: int| 0 <= m < e3.values.len() implies child_shape(e0.values[m], #[trigger] e3.values[m]) by {
        assert(child_shape(e0.values[m], e1.values[m]));
        if m == k {
            match e1.values[k] {
                ChildView::Id(_) => {},
                ChildView::Inline(b) => {
                    assert(e3.values[m] == ChildView::Inline(Box::new(one_valued(*b))));
                },
            }
        }
    }
    match e1.values[k] {
        ChildView::Id(j) => {
            assert(child_refers_to(e1.values[k], j as int));
            assert(ready_child(o, o1, r1, bound, h, e0, e1.values[k], in_arena, sm, nn));
            let x = o1[j as int];
            lemma_one_valued(x);
            assert(o3.len() == o1.len());
            assert(r1.len() == o3.len());
            assert forall|i: int| 0 <= i < o3.len() implies #[trigger] well_shaped(o3[i]) by {
                if i != j {
                    assert(o3[i] == o1[i]);
                }
            }
            assert forall|i: int| 0 <= i < o3.len() implies #[trigger] tree_known(o3[i]) by {
                if i != j {
                    assert(o3[i] == o1[i]);
                }
            }
            assert forall|i: int| 0 <= i < o3.len() && r1[i] == 0 implies #[trigger] o3[i].op != ExprOp::Neg by {
                if i != j {
                    assert(o3[i] == o1[i]);
                }
            }
            assert forall|i: int, m: int| 0 <= i < o3.len() && #[trigger] refers_to(o3[i], m) implies 0 <= m < o3.len()
                && r1[m] < r1[i] by {
                if i != j {
                    assert(o3[i] == o1[i]);
                }
                assert(refers_to(o1[i], m));
            }
            assert(ranked(o3, r1));
            assert(info_inv(o3, r1));
            assert forall|i: int| 0 <= i < o.len() && rank[i] >= bound implies #[trigger] o3[i] == o[i] by {
                assert(r1[i] == rank[i]);
                assert(o1[i] == o[i]);
                if i == j {
                    assert(r1[j as int] < bound);
                }
            }
            assert forall|i: int| 0 <= i < o.len() implies #[trigger] entry_shape(o[i], o3[i]) by {
                assert(entry_shape(o[i], o1[i]));
                if i == j {
                    lemma_entry_shape_refl(o1[i]);
                    assert(entry_shape(o1[i], o3[i]));
                    lemma_entry_shape_trans(o[i], o1[i], o3[i]);
                } else {
                    assert(o3[i] == o1[i]);
                }
            }
            assert forall|i: int| 0 <= i < o.len() && o[i].info_computed implies #[trigger] kept(o3[i], o[i]) by {
                assert(kept(o1[i], o[i]));
            }
            assert forall|m: int| 0 <= m < e3.values.len() implies ready_child(
                o,
                o3,
                r1,
                bound,
                h,
                e0,
                #[trigger] e3.values[m],
                in_arena,
                sm,
                nn,
            ) by {
                assert(e3.values[m] == e1.values[m]);
                assert(ready_child(o, o1, r1, bound, h, e0, e1.values[m], in_arena, sm, nn));
            }
        },
        ChildView::Inline(b) => {
            lemma_one_valued(*b);
            assert forall|m: int| 0 <= m < e3.values.len() implies ready_child(
                o,
                o3,
                r1,
                bound,
                h,
                e0,
                #[trigger] e3.values[m],
                in_arena,
                sm,
                nn,
            ) by {
                assert(ready_child(o, o1, r1, bound, h, e0, e1.values[m], in_arena, sm, nn));
                if m == k {
                    assert forall|j: int| #[trigger] child_refers_to(e3.values[m], j) implies child_refers_to(
                        e1.values[m],
                        j,
                    ) by {}
                }
            }
        },
    }
}

/// Rewrites a negation into a multiplication by -1, and an addition (or
/// subtraction) of a literal zero into a multiplication by one.
fn prepare_node(
    expressions: &mut Vec<Expression>,
    e: &mut Expression,
    in_arena: bool,
    Ghost(rank): Ghost<Seq<nat>>,
    Ghost(bound): Ghost<nat>,
    Ghost(h): Ghost<nat>,
    Ghost(sm): Ghost<bool>,
    Ghost(nn): Ghost<bool>,
)
    requires
        sm ==> arena_sane(arena_view(old(expressions)@)),
        sm ==> tree_sane(old(e)@),
        nn ==> arena_nn(arena_view(old(expressions)@)) && tree_nn(old(e)@),
        info_inv(arena_view(old(expressions)@), rank),
        rank.len() == old(expressions)@.len(),
        well_shaped(old(e)@),
        tree_known(old(e)@),
        refs_below(arena_view(old(expressions)@), rank, old(e)@, bound),
        in_arena && old(e).op == ExprOp::Neg ==> bound >= 1,
        h == height(old(e)@),
        !old(e).info_computed,
        is_arith(old(e).op) || old(e).op == ExprOp::Neg,
    ensures
        ready(arena_view(old(expressions)@), rank, bound, h, old(e)@, arena_view(final(expressions)@), final(e)@, in_arena, sm, nn),
        final(e)@.op == rewritten_op(arena_view(old(expressions)@), old(e)@),
{
    let ghost o = arena_view(expressions@);
    let ghost e0 = e@;
    proof {
        lemma_children_view(e.values@);
        lemma_node_pointwise(e0);
        lemma_ids_in_bounds(o, rank, e0, bound);
        assert(ext_rank(rank, o.len()) =~= rank);
        assert forall|k: int| 0 <= k < e0.values.len() implies ready_child(
            o,
            o,
            rank,
            bound,
            h,
            e0,
            #[trigger] e0.values[k],
            in_arena,
            sm,
            nn,
        ) by {
            assert forall|j: int| #[trigger] child_refers_to(e0.values[k], j) implies 0 <= j < o.len() && rank[j] < bound
                && refers_to(e0, j) by {}
        }
        assert(e0 == ExprView { op: e0.op, ..e0 });
    }
    if matches!(e.op, ExprOp::Neg) {
        e.op = ExprOp::Mul;
        let mut leaf = Expression::new(ExprOp::Number);
        leaf.value = Some(neg_one_string());
        leaf.exp_deg = 0;
        leaf.stage = 0;
        leaf.dim = 1;
        proof {
            lemma_children_view(leaf.values@);
            lemma_leaf_facts(leaf@);
        }
        let mut old_values: Vec<ExprChild> = Vec::new();
        std::mem::swap(&mut old_values, &mut e.values);
        let first = old_values.remove(0);
        let mut nv: Vec<ExprChild> = Vec::new();
        if in_arena {
            let leaf_id = expressions.len();
            expressions.push(leaf);
            nv.push(ExprChild::Id(leaf_id));
        } else {
            nv.push(ExprChild::Inline(Box::new(leaf)));
        }
        nv.push(first);
        e.values = nv;
        proof {
            let o1 = arena_view(expressions@);
            let r1 = ext_rank(rank, o1.len());
            let e1 = e@;
            lemma_children_view(e.values@);
            assert(first@ == e0.values[0]);
            assert(e1.values.len() == 2);
            assert(e1.values[1] == e0.values[0]);
            assert(ready_child(o, o, rank, bound, h, e0, e0.values[0], in_arena, sm, nn));
            assert(child_height(e0.values[0]) >= 1);
            assert(h >= 2);
            if in_arena {
                assert(o1 =~= o.push(leaf@));
                assert forall|i: int| 0 <= i < o1.len() implies #[trigger] well_shaped(o1[i]) by {
                    if i < o.len() {
                        assert(o1[i] == o[i]);
                    }
                }
                assert forall|i: int| 0 <= i < o1.len() implies #[trigger] tree_known(o1[i]) by {
                    if i < o.len() {
                        assert(o1[i] == o[i]);
                    }
                }
                assert forall|i: int| 0 <= i < o1.len() && r1[i] == 0 implies #[trigger] o1[i].op != ExprOp::Neg by {
                    if i < o.len() {
                        assert(o1[i] == o[i]);
                    }
                }
                assert forall|i: int, m: int| 0 <= i < o1.len() && #[trigger] refers_to(o1[i], m) implies 0 <= m
                    < o1.len() && r1[m] < r1[i] by {
                    if i < o.len() {
                        assert(o1[i] == o[i]);
                    }
                }
                assert(ranked(o1, r1));
                assert forall|j: int| #[trigger] child_refers_to(e1.values[0], j) implies (in_arena && e0.op
                    == ExprOp::Neg && o.len() <= j < o1.len()) && 0 <= j < o1.len() && r1[j] < bound by {}
                assert(ready_child(o, o1, r1, bound, h, e0, e1.values[0], in_arena, sm, nn));
                assert(ready_child(o, o1, r1, bound, h, e0, e1.values[1], in_arena, sm, nn));
            } else {
                assert(o1 == o);
                assert(r1 =~= rank);
                assert(ready_child(o, o1, r1, bound, h, e0, e1.values[0], in_arena, sm, nn));
                assert(ready_child(o, o1, r1, bound, h, e0, e1.values[1], in_arena, sm, nn));
            }
            assert(info_step(o, o1, rank, bound));
            assert(same_but_values(ExprView { op: e1.op, ..e0 }, e1));
            assert(ready(o, rank, bound, h, e0, o1, e1, in_arena, sm, nn));
        }
    } else {
        proof {
            assert(e@ == e0);
            assert(same_but_values(ExprView { op: e0.op, ..e0 }, e0));
            assert(ready(o, rank, bound, h, e0, o, e0, in_arena, sm, nn));
        }
    }
    let ghost o1 = arena_view(expressions@);
    let ghost e1 = e@;
    proof {
        lemma_children_view(e.values@);
        assert(e1.op == if e0.op == ExprOp::Neg { ExprOp::Mul } else { e0.op });
        assert(e0.op != ExprOp::Neg ==> o1 == o && e1 == e0);
    }
    if matches!(e.op, ExprOp::Add) {
        proof {
            assert(ready_child(o, o1, ext_rank(rank, o1.len()), bound, h, e0, e1.values[0], in_arena, sm, nn));
            match e1.values[0] {
                ChildView::Id(j) => {
                    assert(child_refers_to(e1.values[0], j as int));
                },
                ChildView::Inline(_) => {},
            }
        }
        let lhs_zero = is_zero_value(e.values[0].resolve(expressions));
        if lhs_zero {
            e.op = ExprOp::Mul;
            proof {
                lemma_children_view(e.values@);
                assert(e@ == ExprView { op: ExprOp::Mul, ..e1 });
            }
            set_child_one(expressions, e, 0);
            proof {
                lemma_ready_set_one(o, rank, bound, h, e0, o1, e1, arena_view(expressions@), e@, 0, in_arena, sm, nn);
            }
        }
    }
    let ghost o15 = arena_view(expressions@);
    let ghost e15 = e@;
    if matches!(e.op, ExprOp::Add) || matches!(e.op, ExprOp::Sub) {
        proof {
            assert(e15 == e1 && o15 == o1);
            assert(ready_child(o, o1, ext_rank(rank, o1.len()), bound, h, e0, e1.values[1], in_arena, sm, nn));
            match e1.values[1] {
                ChildView::Id(j) => {
                    assert(child_refers_to(e1.values[1], j as int));
                },
                ChildView::Inline(_) => {},
            }
        }
        let rhs_zero = is_zero_value(e.values[1].resolve(expressions));
        if rhs_zero {
            e.op = ExprOp::Mul;
            proof {
                lemma_children_view(e.values@);
                assert(e@ == ExprView { op: ExprOp::Mul, ..e1 });
            }
            set_child_one(expressions, e, 1);
            proof {
                lemma_ready_set_one(o, rank, bound, h, e0, o1, e1, arena_view(expressions@), e@, 1, in_arena, sm, nn);
            }
        }
    }
    proof {
        lemma_children_view(e.values@);
    }
}

/// Annotates every operand of an arithmetic node made ready by
/// `prepare_node`.
fn annotate_children(
    expressions: &mut Vec<Expression>,
    e: &mut Expression,
    in_arena: bool,
    Ghost(rank): Ghost<Seq<nat>>,
    Ghost(bound): Ghost<nat>,
    Ghost(h): Ghost<nat>,
    Ghost(o): Ghost<Seq<ExprView>>,
    Ghost(e0): Ghost<ExprView>,
    Ghost(sm): Ghost<bool>,
    Ghost(nn): Ghost<bool>,
)
    requires
        ready(o, rank, bound, h, e0, arena_view(old(expressions)@), old(e)@, in_arena, sm, nn),
        rank.len() == o.len(),
    ensures
        info_inv(arena_view(final(expressions)@), ext_rank(rank, final(expressions)@.len())),
        sm ==> arena_sane(arena_view(final(expressions)@)),
        info_step(arena_view(old(expressions)@), arena_view(final(expressions)@), ext_rank(rank, old(expressions)@.len()), bound),
        same_but_values(old(e)@, final(e)@),
        final(e)@.values.len() == old(e)@.values.len(),
        forall|i: int| 0 <= i < old(e)@.values.len() ==> child_done(arena_view(final(expressions)@), #[trigger] final(e)@.values[i]),
        sm ==> forall|i: int| 0 <= i < old(e)@.values.len() ==> child_sane(#[trigger] final(e)@.values[i]),
        nn ==> forall|i: int| 0 <= i < old(e)@.values.len() ==> child_nn(#[trigger] final(e)@.values[i]),
        nn ==> arena_nn(arena_view(final(expressions)@)) && final(expressions)@.len() == old(expressions)@.len(),
        forall|i: int| 0 <= i < old(e)@.values.len() ==> child_shape(old(e)@.values[i], #[trigger] final(e)@.values[i]),
        forall|i: int, j: int| 0 <= i < old(e)@.values.len() && #[trigger] child_refers_to(final(e)@.values[i], j) ==> child_refers_to(
            old(e)@.values[i],
            j,
        ),
    decreases bound, h, 0nat,
{
    let ghost o2 = arena_view(expressions@);
    let ghost e2 = e@;
    let ghost r2 = ext_rank(rank, o2.len());
    proof {
        lemma_children_view(e.values@);
        assert(info_step(o2, o2, r2, bound));
        assert(ext_rank(rank, o2.len()) == r2);
    }
    let n = e.values.len();
    let mut k: usize = 0;
    while k < n
        invariant
            n == e.values@.len(),
            k <= n,
            ready(o, rank, bound, h, e0, o2, e2, in_arena, sm, nn),
            r2 == ext_rank(rank, o2.len()),
            rank.len() == o.len(),
            n == e2.values.len(),
            same_but_values(e2, e@),
            arena_view(expressions@).len() >= o2.len(),
            info_inv(arena_view(expressions@), ext_rank(rank, expressions@.len())),
            sm ==> arena_sane(arena_view(expressions@)),
            sm ==> forall|i: int| 0 <= i < k ==> child_sane(#[trigger] e@.values[i]),
            nn ==> forall|i: int| 0 <= i < k ==> child_nn(#[trigger] e@.values[i]),
            nn ==> arena_nn(arena_view(expressions@)) && expressions@.len() == o2.len(),
            forall|i: int| 0 <= i < n ==> child_shape(e2.values[i], #[trigger] e@.values[i]),
            info_step(o2, arena_view(expressions@), r2, bound),
            forall|i: int| 0 <= i < k ==> child_done(arena_view(expressions@), #[trigger] e@.values[i]),
            forall|i: int| k <= i < n ==> #[trigger] e@.values[i] == e2.values[i],
            forall|i: int, j: int| 0 <= i < n && #[trigger] child_refers_to(e@.values[i], j) ==> child_refers_to(
                e2.values[i],
                j,
            ),
        decreases n - k,
    {
        let ghost c_before = arena_view(expressions@);
        let ghost e_before = e@;
        proof {
            lemma_children_view(e.values@);
            assert(ready_child(o, o2, r2, bound, h, e0, e2.values[k as int], in_arena, sm, nn));
            lemma_ext_rank_ext(rank, o2.len(), c_before.len());
        }
        let ghost cv = e.values@[k as int]@;
        proof {
            assert(e@.values[k as int] == e2.values[k as int]);
            assert(cv == e2.values[k as int]);
        }
        let mut c = ExprChild::Id(0);
        std::mem::swap(&mut c, &mut e.values[k]);
        proof {
            assert(c@ == cv);
        }
        match c {
            ExprChild::Id(j) => {
                let ghost rk = ext_rank(rank, expressions@.len());
                let ghost hj = height(arena_view(expressions@)[j as int]);
                proof {
                    assert(child_refers_to(e2.values[k as int], j as int));
                    assert(rk[j as int] == r2[j as int]);
                }
                info_arena(expressions, j, Ghost(rk), Ghost(hj), Ghost(sm), Ghost(nn));
                e.values[k] = ExprChild::Id(j);
                proof {
                    let c_after = arena_view(expressions@);
                    lemma_ext_rank_ext(rank, c_before.len(), c_after.len());
                    lemma_step_trans(o2, c_before, c_after, r2, bound, rk[j as int] + 1, bound);
                    lemma_children_view(e.values@);
                    assert forall|i: int| 0 <= i < k + 1 implies child_done(c_after, #[trigger] e@.values[i]) by {
                        if i < k {
                            assert(e@.values[i] == e_before.values[i]);
                            assert(child_done(c_before, e_before.values[i]));
                            match e_before.values[i] {
                                ChildView::Id(m) => {
                                    assert(kept(c_after[m as int], c_before[m as int]));
                                },
                                ChildView::Inline(_) => {},
                            }
                        }
                    }
                    assert(e@.values =~= e_before.values);
                }
            },
            ExprChild::Inline(b) => {
                let ghost vals_before = e.values@;
                let mut inner: Expression = *b;
                let ghost rk = ext_rank(rank, expressions@.len());
                let ghost hi = height(inner@);
                let ghost inner0 = inner@;
                proof {
                    assert(e2.values[k as int] == ChildView::Inline(Box::new(inner0)));
                    assert forall|j: int| #[trigger] refers_to(inner0, j) implies 0 <= j < c_before.len() && rk[j] < bound by {
                        assert(child_refers_to(e2.values[k as int], j));
                    }
                }
                info_node(expressions, &mut inner, false, Ghost(rk), Ghost(bound), Ghost(hi), Ghost(sm), Ghost(nn));
                let ghost inner1 = inner@;
                e.values[k] = ExprChild::Inline(Box::new(inner));
                proof {
                    let c_after = arena_view(expressions@);
                    lemma_ext_rank_ext(rank, c_before.len(), c_after.len());
                    lemma_step_trans(o2, c_before, c_after, r2, bound, bound, bound);
                    assert(e.values@ =~= vals_before.update(k as int, e.values@[k as int]));
                    lemma_children_view(e.values@);
                    lemma_children_view(vals_before);
                    assert(e@.values[k as int] == ChildView::Inline(Box::new(inner1)));
                    assert forall|i: int| 0 <= i < n && i != k implies #[trigger] e@.values[i] == e_before.values[i] by {
                        assert(e.values@[i] == vals_before[i]);
                    }
                    assert(sm ==> child_sane(e@.values[k as int]));
                    assert(nn ==> child_nn(e@.values[k as int]));
                    assert(nn ==> forall|i: int| 0 <= i < k + 1 ==> child_nn(#[trigger] e@.values[i])) by {
                        if nn {
                            assert forall|i: int| 0 <= i < k + 1 implies child_nn(#[trigger] e@.values[i]) by {
                                if i < k {
                                    assert(e@.values[i] == e_before.values[i]);
                                }
                            }
                        }
                    }
                    assert forall|i: int| 0 <= i < k + 1 implies child_done(c_after, #[trigger] e@.values[i]) by {
                        if i < k {
                            assert(e@.values[i] == e_before.values[i]);
                            assert(child_done(c_before, e_before.values[i]));
                            match e_before.values[i] {
                                ChildView::Id(m) => {
                                    assert(kept(c_after[m as int], c_before[m as int]));
                                },
                                ChildView::Inline(_) => {},
                            }
                        }
                    }
                    assert forall|i: int, j: int| 0 <= i < n && #[trigger] child_refers_to(e@.values[i], j) implies child_refers_to(
                        e2.values[i],
                        j,
                    ) by {
                        if i != k {
                            assert(e@.values[i] == e_before.values[i]);
                        } else {
                            assert(refers_to(inner1, j));
                        }
                    }
                }
            },
        }
        k = k + 1;
    }
    proof {
        lemma_children_view(e.values@);
    }
}

/// Annotates the arithmetic node `e`: rewrites negations and additions of
/// zero into multiplications, annotates both operands, and combines them.
fn handle_binary_or_neg(
    expressions: &mut Vec<Expression>,
    e: &mut Expression,
    in_arena: bool,
    Ghost(rank): Ghost<Seq<nat>>,
    Ghost(bound): Ghost<nat>,
    Ghost(h): Ghost<nat>,
    Ghost(sm): Ghost<bool>,
    Ghost(nn): Ghost<bool>,
)
    requires
        sm ==> arena_sane(arena_view(old(expressions)@)),
        sm ==> tree_sane(old(e)@),
        nn ==> arena_nn(arena_view(old(expressions)@)) && tree_nn(old(e)@),
        info_inv(arena_view(old(expressions)@), rank),
        rank.len() == old(expressions)@.len(),
        well_shaped(old(e)@),
        tree_known(old(e)@),
        refs_below(arena_view(old(expressions)@), rank, old(e)@, bound),
        in_arena && old(e).op == ExprOp::Neg ==> bound >= 1,
        h == height(old(e)@),
        !old(e).info_computed,
        is_arith(old(e).op) || old(e).op == ExprOp::Neg,
    ensures
        info_inv(arena_view(final(expressions)@), ext_rank(rank, final(expressions)@.len())),
        sm ==> arena_sane(arena_view(final(expressions)@)),
        info_step(arena_view(old(expressions)@), arena_view(final(expressions)@), rank, bound),
        node_after(arena_view(old(expressions)@), arena_view(final(expressions)@), old(e)@, final(e)@, in_arena),
        sm ==> tree_sane(final(e)@),
        nn ==> arena_nn(arena_view(final(expressions)@)) && final(expressions)@.len() == old(expressions)@.len() && tree_nn(
            final(e)@,
        ),
        bin_result(arena_view(old(expressions)@), arena_view(final(expressions)@), old(e)@, final(e)@),
        !final(e).info_computed,
    decreases bound, h, 1nat,
{
    let ghost o = arena_view(expressions@);
    let ghost e0 = e@;
    prepare_node(expressions, e, in_arena, Ghost(rank), Ghost(bound), Ghost(h), Ghost(sm), Ghost(nn));
    let ghost o2 = arena_view(expressions@);
    let ghost e2 = e@;
    let ghost r2 = ext_rank(rank, o2.len());
    annotate_children(expressions, e, in_arena, Ghost(rank), Ghost(bound), Ghost(h), Ghost(o), Ghost(e0), Ghost(sm), Ghost(nn));
    let ghost cn = arena_view(expressions@);
    proof {
        lemma_children_view(e.values@);
        assert(child_done(cn, e@.values[0]));
        assert(child_done(cn, e@.values[1]));
    }
    let lhs = e.values[0].resolve(expressions);
    let ld = lhs.exp_deg;
    let ldim = lhs.dim;
    let lst = lhs.stage;
    let loffs = offsets_of(lhs);
    let rhs = e.values[1].resolve(expressions);
    let rd = rhs.exp_deg;
    let rdim = rhs.dim;
    let rst = rhs.stage;
    let roffs = offsets_of(rhs);
    let ghost ev = e@;
    e.exp_deg = if matches!(e.op, ExprOp::Mul) { sat_add_i64(ld, rd) } else if ld >= rd { ld } else { rd };
    e.dim = if ldim >= rdim { ldim } else { rdim };
    e.stage = if lst >= rst { lst } else { rst };
    e.rows_offsets = merge_offsets(loffs, &roffs);
    proof {
        lemma_children_view(e.values@);
        let ef = e@;
        assert(ef.values == ev.values);
        assert(resolve_view(cn, ef.values[0]) == lhs@);
        assert(resolve_view(cn, ef.values[1]) == rhs@);
        lemma_step_trans(o, o2, cn, rank, bound, bound, bound);
        lemma_node_pointwise(ef);
        assert forall|k2: int| 0 <= k2 < ef.values.len() implies #[trigger] child_well_shaped(ef.values[k2]) && child_known(
            ef.values[k2],
        ) by {
            assert(child_done(cn, ef.values[k2]));
        }
        if sm {
            assert forall|k2: int| 0 <= k2 < ef.values.len() implies #[trigger] child_sane(ef.values[k2]) by {}
            assert(tree_sane(resolve_view(cn, ef.values[0]))) by {
                assert(child_sane(ef.values[0]));
            }
            assert(tree_sane(resolve_view(cn, ef.values[1]))) by {
                assert(child_sane(ef.values[1]));
            }
            assert(ef.dim >= 1);
            assert(tree_sane(ef));
        }
        assert forall|j: int| #[trigger] refers_to(ef, j) implies refers_to(e0, j) || (in_arena && e0.op == ExprOp::Neg
            && o.len() <= j < cn.len()) by {
            let k2 = choose|k2: int| 0 <= k2 < ef.values.len() && #[trigger] child_refers_to(ef.values[k2], j);
            assert(child_refers_to(e2.values[k2], j));
            assert(ready_child(o, o2, r2, bound, h, e0, e2.values[k2], in_arena, sm, nn));
        }
    }
}

/// `x` with value `1`.
pub open spec fn one_valued(x: ExprView) -> ExprView {
    ExprView { value: Some("1"@), ..x }
}

/// `b` is `a` with other children.
pub open spec fn same_but_values(a: ExprView, b: ExprView) -> bool {
    b == ExprView { values: b.values, ..a }
}

/// The effect of setting child `k` of `e0` (arena `o`) to value one.
pub open spec fn child_set_one(o: Seq<ExprView>, n: Seq<ExprView>, e0: ExprView, e1: ExprView, k: int) -> bool {
    &&& same_but_values(e0, e1)
    &&& e1.values.len() == e0.values.len()
    &&& forall|i: int| 0 <= i < e0.values.len() && i != k ==> #[trigger] e1.values[i] == e0.values[i]
    &&& match e0.values[k] {
        ChildView::Id(j) => e1.values[k] == e0.values[k] && n == o.update(j as int, one_valued(o[j as int])),
        ChildView::Inline(b) => n == o && e1.values[k] == ChildView::Inline(Box::new(one_valued(*b))),
    }
}

/// Sets the value of child `k` of `e` (in the arena or inline) to `1`.
fn set_child_one(expressions: &mut Vec<Expression>, e: &mut Expression, k: usize)
    requires
        k < old(e).values@.len(),
        old(e).values@[k as int] is Id ==> old(e).values@[k as int]->Id_0 < old(expressions)@.len(),
    ensures
        child_set_one(arena_view(old(expressions)@), arena_view(final(expressions)@), old(e)@, final(e)@, k as int),
{
    let ghost o = arena_view(expressions@);
    let ghost e0 = e@;
    let ghost vals0 = e.values@;
    proof {
        lemma_children_view(vals0);
    }
    let mut c = ExprChild::Id(0);
    std::mem::swap(&mut c, &mut e.values[k]);
    proof {
        assert(c == vals0[k as int]);
    }
    match c {
        ExprChild::Id(id) => {
            expressions[id].value = Some(one_string());
            e.values[k] = ExprChild::Id(id);
            proof {
                let n = arena_view(expressions@);
                assert(n =~= o.update(id as int, one_valued(o[id as int])));
            }
        },
        ExprChild::Inline(b) => {
            let mut inner: Expression = *b;
            let ghost b0 = inner@;
            inner.value = Some(one_string());
            proof {
                assert(inner@ == one_valued(b0));
            }
            e.values[k] = ExprChild::Inline(Box::new(inner));
            proof {
                assert(arena_view(expressions@) =~= o);
            }
        },
    }
    proof {
        lemma_children_view(e.values@);
        assert(e.values@ =~= vals0.update(k as int, e.values@[k as int]));
        assert forall|i: int| 0 <= i < e0.values.len() && i != k implies #[trigger] e@.values[i] == e0.values[i] by {
            assert(e.values@[i] == vals0[i]);
        }
        assert(e@ == ExprView { values: e@.values, ..e0 });
    }
}

/// Annotates arena entry `idx` (and, first, everything it refers to).
fn info_arena(
    expressions: &mut Vec<Expression>,
    idx: usize,
    Ghost(rank): Ghost<Seq<nat>>,
    Ghost(h): Ghost<nat>,
    Ghost(sm): Ghost<bool>,
    Ghost(nn): Ghost<bool>,
)
    requires
        sm ==> arena_sane(arena_view(old(expressions)@)),
        nn ==> arena_nn(arena_view(old(expressions)@)),
        info_inv(arena_view(old(expressions)@), rank),
        rank.len() == old(expressions)@.len(),
        idx < old(expressions)@.len(),
        h == height(arena_view(old(expressions)@)[idx as int]),
    ensures
        info_inv(arena_view(final(expressions)@), ext_rank(rank, final(expressions)@.len())),
        sm ==> arena_sane(arena_view(final(expressions)@)),
        info_step(arena_view(old(expressions)@), arena_view(final(expressions)@), rank, rank[idx as int] + 1),
        nn ==> arena_nn(arena_view(final(expressions)@)) && final(expressions)@.len() == old(expressions)@.len(),
        idx < final(expressions)@.len(),
        final(expressions)@[idx as int].info_computed,
        old(expressions)@[idx as int].info_computed ==> final(expressions)@ == old(expressions)@,
        !old(expressions)@[idx as int].info_computed ==> info_result(
            arena_view(old(expressions)@),
            arena_view(final(expressions)@),
            arena_view(old(expressions)@)[idx as int],
            arena_view(final(expressions)@)[idx as int],
        ),
    decreases rank[idx as int], h + 1, 0nat,
{
    if expressions[idx].info_computed {
        proof {
            assert(ext_rank(rank, expressions@.len()) =~= rank);
        }
        return;
    }
    let ghost o = arena_view(expressions@);
    let mut e = Expression::new(ExprOp::Number);
    proof {
        lemma_children_view(e.values@);
        lemma_leaf_facts(e@);
    }
    std::mem::swap(&mut e, &mut expressions[idx]);
    let ghost e0 = e@;
    let ghost o1 = arena_view(expressions@);
    proof {
        let blank = o1[idx as int];
        assert(o1 =~= o.update(idx as int, blank));
        assert(e0 == o[idx as int]);
        assert forall|i: int| 0 <= i < o1.len() implies #[trigger] well_shaped(o1[i]) && tree_known(o1[i]) by {
            if i != idx {
                assert(o1[i] == o[i]);
            }
        }
        assert forall|i: int| 0 <= i < o1.len() && rank[i] == 0 implies #[trigger] o1[i].op != ExprOp::Neg by {
            if i != idx {
                assert(o1[i] == o[i]);
            }
        }
        assert forall|i: int, m: int| 0 <= i < o1.len() && #[trigger] refers_to(o1[i], m) implies 0 <= m < o1.len()
            && rank[m] < rank[i] by {
            if i != idx {
                assert(o1[i] == o[i]);
            }
        }
        assert(ranked(o1, rank));
        assert forall|m: int| #[trigger] refers_to(e0, m) implies 0 <= m < o1.len() && rank[m] < rank[idx as int] by {
            assert(refers_to(o[idx as int], m));
        }
        assert(e0.op == ExprOp::Neg ==> rank[idx as int] >= 1);
    }
    info_node(expressions, &mut e, true, Ghost(rank), Ghost(rank[idx as int]), Ghost(h), Ghost(sm), Ghost(nn));
    let ghost n1 = arena_view(expressions@);
    let ghost e1 = e@;
    expressions[idx] = e;
    proof {
        let n = arena_view(expressions@);
        let rk = ext_rank(rank, n.len());
        assert(n =~= n1.update(idx as int, e1));
        assert(rk.len() == n1.len());
        // the refreshed entry keeps the arena well formed
        assert forall|m: int| #[trigger] refers_to(e1, m) implies 0 <= m < n.len() && rk[m] < rk[idx as int] by {
            if refers_to(e0, m) {
            } else {
                assert(o.len() <= m < n1.len());
            }
        }
        assert forall|i: int| 0 <= i < n.len() implies #[trigger] well_shaped(n[i]) && tree_known(n[i]) by {
            if i != idx {
                assert(n[i] == n1[i]);
            }
        }
        assert forall|i: int| 0 <= i < n.len() && rk[i] == 0 implies #[trigger] n[i].op != ExprOp::Neg by {
            if i != idx {
                assert(n[i] == n1[i]);
            }
        }
        assert forall|i: int, m: int| 0 <= i < n.len() && #[trigger] refers_to(n[i], m) implies 0 <= m < n.len() && rk[m]
            < rk[i] by {
            if i != idx {
                assert(n[i] == n1[i]);
            }
        }
        assert(ranked(n, rk));
        assert forall|i: int| 0 <= i < o.len() && rank[i] >= rank[idx as int] + 1 implies #[trigger] n[i] == o[i] by {
            assert(n1[i] == o1[i]);
        }
        assert(entry_shape(e0, e1)) by {
            lemma_entry_shape_refl(e0);
            if e0.op != ExprOp::Neg {
                assert forall|k: int| 0 <= k < e0.values.len() implies child_shape(e0.values[k], #[trigger] e1.values[k]) by {
                    lemma_child_shape_refl(e0.values[k]);
                }
            }
        }
        assert forall|i: int| 0 <= i < o.len() implies #[trigger] entry_shape(o[i], n[i]) by {
            if i != idx {
                assert(o1[i] == o[i]);
                assert(entry_shape(o1[i], n1[i]));
            }
        }
        assert forall|i: int| 0 <= i < o.len() && o[i].info_computed implies #[trigger] kept(n[i], o[i]) by {
            assert(o1[i] == o[i]);
            assert(kept(n1[i], o1[i]));
        }
        assert(n[idx as int] == e1);
        if !o[idx as int].info_computed {
            lemma_node_pointwise(e0);
            lemma_node_pointwise(e1);
            assert forall|m: int| #[trigger] refers_to(e1, m) implies m != idx by {}
            assert forall|m: int| #[trigger] refers_to(e0, m) implies m != idx by {}
            match e0.op {
                ExprOp::Exp => {
                    assert(refers_to(e0, exp_target(e0)));
                    assert(n[exp_target(e0)] == n1[exp_target(e0)]);
                },
                ExprOp::Add | ExprOp::Sub | ExprOp::Mul | ExprOp::Neg => {
                    assert forall|k: int| 0 <= k < e1.values.len() implies resolve_view(n, #[trigger] e1.values[k])
                        == resolve_view(n1, e1.values[k]) by {
                        match e1.values[k] {
                            ChildView::Id(m) => {
                                assert(child_refers_to(e1.values[k], m as int));
                                assert(refers_to(e1, m as int));
                            },
                            ChildView::Inline(_) => {},
                        }
                    }
                    assert forall|k: int| 0 <= k < e0.values.len() implies resolve_view(o, #[trigger] e0.values[k])
                        == resolve_view(o1, e0.values[k]) by {
                        match e0.values[k] {
                            ChildView::Id(m) => {
                                assert(child_refers_to(e0.values[k], m as int));
                                assert(refers_to(e0, m as int));
                            },
                            ChildView::Inline(_) => {},
                        }
                    }
                    assert(rewritten_op(o, e0) == rewritten_op(o1, e0));
                    assert(bin_result(o, n, e0, e1));
                },
                _ => {},
            }
        }
    }
}


// ---------------------------------------------------------------------------
// Public entry points of the annotation pass
// ---------------------------------------------------------------------------

/// Every node of the arena (inline descendants included) has an operation
/// the annotation pass knows.
pub open spec fn arena_known(av: Seq<ExprView>) -> bool {
    forall|i: int| 0 <= i < av.len() ==> #[trigger] tree_known(av[i])
}

/// The annotation of every annotated entry of `o` is the same in `n`.
pub open spec fn keeps_annotations(o: Seq<ExprView>, n: Seq<ExprView>) -> bool {
    &&& n.len() >= o.len()
    &&& forall|i: int| 0 <= i < o.len() && o[i].info_computed ==> #[trigger] kept(n[i], o[i])
    &&& forall|i: int| 0 <= i < o.len() ==> #[trigger] entry_shape(o[i], n[i])
}

/// A rank witness whose ranks are all at least one.
pub open spec fn lifted_rank(av: Seq<ExprView>) -> Seq<nat> {
    canon_rank(av).map_values(|r: nat| r + 1)
}

proof fn lemma_lifted_rank(av: Seq<ExprView>)
    requires
        arena_wf(av),
        arena_known(av),
    ensures
        info_inv(av, lifted_rank(av)),
        forall|i: int| 0 <= i < av.len() ==> #[trigger] lifted_rank(av)[i] >= 1,
{
    let r = canon_rank(av);
    let l = lifted_rank(av);
    assert(ranked(av, r));
    assert forall|i: int, j: int| 0 <= i < av.len() && #[trigger] refers_to(av[i], j) implies 0 <= j < av.len() && l[j]
        < l[i] by {}
}

proof fn lemma_inv_wf(av: Seq<ExprView>, rank: Seq<nat>)
    requires
        info_inv(av, rank),
    ensures
        arena_wf(av),
        arena_known(av),
{
}

/// Annotates arena entry `idx` with its degree, dimension, stage and row
/// offsets, annotating first every entry it refers to. Negations become
/// multiplications by -1 (whose constant is appended to the arena), and
/// additions or subtractions of a literal zero become multiplications by one.
/// An entry that is already annotated is left as it is.
pub fn add_info_expressions(expressions: &mut Vec<Expression>, idx: usize)
    requires
        arena_wf(arena_view(old(expressions)@)),
        arena_known(arena_view(old(expressions)@)),
        idx < old(expressions)@.len(),
    ensures
        arena_wf(arena_view(final(expressions)@)),
        arena_known(arena_view(final(expressions)@)),
        arena_sane(arena_view(old(expressions)@)) ==> arena_sane(arena_view(final(expressions)@)),
        keeps_annotations(arena_view(old(expressions)@), arena_view(final(expressions)@)),
        arena_nn(arena_view(old(expressions)@)) ==> arena_nn(arena_view(final(expressions)@)) && final(expressions)@.len()
            == old(expressions)@.len(),
        idx < final(expressions)@.len(),
        final(expressions)@[idx as int].info_computed,
        old(expressions)@[idx as int].info_computed ==> final(expressions)@ == old(expressions)@,
        !old(expressions)@[idx as int].info_computed ==> info_result(
            arena_view(old(expressions)@),
            arena_view(final(expressions)@),
            arena_view(old(expressions)@)[idx as int],
            arena_view(final(expressions)@)[idx as int],
        ),
{
    let ghost av = arena_view(expressions@);
    let ghost rank = lifted_rank(av);
    proof {
        lemma_lifted_rank(av);
    }
    let ghost sm = arena_sane(av);
    let ghost nn = arena_nn(av);
    info_arena(expressions, idx, Ghost(rank), Ghost(height(av[idx as int])), Ghost(sm), Ghost(nn));
    proof {
        lemma_inv_wf(arena_view(expressions@), ext_rank(rank, expressions@.len()));
    }
}

/// Annotates `expr`, a node outside the arena, the same way; `exp`
/// references are annotated in the arena first.
pub fn add_info_expression_inline(expressions: &mut Vec<Expression>, expr: &mut Expression)
    requires
        arena_wf(arena_view(old(expressions)@)),
        arena_known(arena_view(old(expressions)@)),
        crate::expression::inline_wf(arena_view(old(expressions)@), old(expr)@),
        tree_known(old(expr)@),
    ensures
        arena_wf(arena_view(final(expressions)@)),
        arena_known(arena_view(final(expressions)@)),
        keeps_annotations(arena_view(old(expressions)@), arena_view(final(expressions)@)),
        crate::expression::inline_wf(arena_view(final(expressions)@), final(expr)@),
        tree_known(final(expr)@),
        arena_sane(arena_view(old(expressions)@)) && tree_sane(old(expr)@) ==> arena_sane(arena_view(final(expressions)@))
            && tree_sane(final(expr)@),
        final(expr).info_computed,
        arena_nn(arena_view(old(expressions)@)) && tree_nn(old(expr)@) ==> arena_nn(arena_view(final(expressions)@))
            && final(expressions)@.len() == old(expressions)@.len() && tree_nn(final(expr)@),
        forall|j: int| #[trigger] refers_to(final(expr)@, j) ==> refers_to(old(expr)@, j),
        old(expr).info_computed ==> final(expr)@ == old(expr)@ && final(expressions)@ == old(expressions)@,
        !old(expr).info_computed ==> info_result(
            arena_view(old(expressions)@),
            arena_view(final(expressions)@),
            old(expr)@,
            final(expr)@,
        ),
{
    let ghost av = arena_view(expressions@);
    let ghost rank = lifted_rank(av);
    let ghost bound = crate::constraint_poly::max_rank(rank) + 1;
    proof {
        lemma_lifted_rank(av);
        assert forall|j: int| #[trigger] refers_to(expr@, j) implies 0 <= j < av.len() && rank[j] < bound by {
            crate::constraint_poly::lemma_max_rank(rank, j);
        }
    }
    let ghost h = height(expr@);
    let ghost sm = arena_sane(av) && tree_sane(expr@);
    let ghost nn = arena_nn(av) && tree_nn(expr@);
    info_node(expressions, expr, false, Ghost(rank), Ghost(bound), Ghost(h), Ghost(sm), Ghost(nn));
    proof {
        let n = arena_view(expressions@);
        lemma_inv_wf(n, ext_rank(rank, expressions@.len()));
        assert forall|j: int| #[trigger] refers_to(expr@, j) implies 0 <= j < n.len() by {}
    }
}


// ---------------------------------------------------------------------------
// Columns referenced by an expression
// ---------------------------------------------------------------------------

/// A column opened at a row offset: its kind (`cm`, `const` or `custom`), its
/// id, the offset and, for custom columns, the commit.
#[derive(Debug, Clone, Copy, PartialEq, Eq, Structural)]
pub struct EvMapItem {
    pub entry_type: ExprOp,
    pub id: usize,
    pub prime: i64,
    pub commit_id: Option<usize>,
}

/// `old` already records `new` (a missing commit matches any commit).
pub open spec fn item_matches(old: EvMapItem, new: EvMapItem) -> bool {
    &&& old.entry_type == new.entry_type
    &&& old.id == new.id
    &&& old.prime == new.prime
    &&& (new.commit_id is None || old.commit_id == new.commit_id)
}

/// `m` with `it` appended unless an entry already records it.
pub open spec fn add_item(m: Seq<EvMapItem>, it: EvMapItem) -> Seq<EvMapItem> {
    if exists|k: int| 0 <= k < m.len() && item_matches(#[trigger] m[k], it) {
        m
    } else {
        m.push(it)
    }
}

/// The column a `cm`/`const`/`custom` node opens.
pub open spec fn column_item(e: ExprView) -> EvMapItem {
    EvMapItem {
        entry_type: e.op,
        id: match e.id {
            Some(i) => i,
            None => 0,
        },
        prime: match e.row_offset {
            Some(r) => r,
            None => 0,
        },
        commit_id: e.commit_id,
    }
}

/// `true` for the column operations.
pub open spec fn is_column(op: ExprOp) -> bool {
    op == ExprOp::Cm || op == ExprOp::Const || op == ExprOp::Custom
}

/// The evaluation map and explored flags after visiting arena entry `idx`.
pub open spec fn syms_arena(
    av: Seq<ExprView>,
    rank: Seq<nat>,
    idx: int,
    st: (Seq<EvMapItem>, Seq<bool>),
) -> (Seq<EvMapItem>, Seq<bool>)
    decreases rank[idx], av[idx], av[idx].values.len() + 2,
{
    if !(0 <= idx < av.len() && rank.len() == av.len()) || st.1[idx] {
        st
    } else {
        let e = av[idx];
        match e.op {
            ExprOp::Exp => {
                let j = exp_target(e);
                let st2 = if 0 <= j < av.len() && rank[j] < rank[idx] {
                    syms_arena(av, rank, j, st)
                } else {
                    st
                };
                (st2.0, st2.1.update(idx, true))
            },
            ExprOp::Cm | ExprOp::Const | ExprOp::Custom => (add_item(st.0, column_item(e)), st.1),
            ExprOp::Add | ExprOp::Sub | ExprOp::Mul | ExprOp::Neg => {
                let st2 = syms_children(av, rank, e, e.values.len() as int, st, rank[idx]);
                (st2.0, st2.1.update(idx, true))
            },
            _ => st,
        }
    }
}

/// The same for a node outside the arena (nothing is marked explored).
pub open spec fn syms_inline(
    av: Seq<ExprView>,
    rank: Seq<nat>,
    e: ExprView,
    bound: nat,
    st: (Seq<EvMapItem>, Seq<bool>),
) -> (Seq<EvMapItem>, Seq<bool>)
    decreases bound, e, e.values.len() + 1,
{
    match e.op {
        ExprOp::Exp => {
            let j = exp_target(e);
            if 0 <= j < av.len() && rank.len() == av.len() && rank[j] < bound {
                syms_arena(av, rank, j, st)
            } else {
                st
            }
        },
        ExprOp::Cm | ExprOp::Const | ExprOp::Custom => (add_item(st.0, column_item(e)), st.1),
        ExprOp::Add | ExprOp::Sub | ExprOp::Mul | ExprOp::Neg => syms_children(
            av,
            rank,
            e,
            e.values.len() as int,
            st,
            bound,
        ),
        _ => st,
    }
}

/// The same for the first `k` children of `e`, in order.
pub open spec fn syms_children(
    av: Seq<ExprView>,
    rank: Seq<nat>,
    e: ExprView,
    k: int,
    st: (Seq<EvMapItem>, Seq<bool>),
    bound: nat,
) -> (Seq<EvMapItem>, Seq<bool>)
    decreases bound, e, k,
{
    if k <= 0 || k > e.values.len() {
        st
    } else {
        let st1 = syms_children(av, rank, e, k - 1, st, bound);
        match e.values[k - 1] {
            ChildView::Id(j) => if j < av.len() && rank.len() == av.len() && rank[j as int] < bound {
                syms_arena(av, rank, j as int, st1)
            } else {
                st1
            },
            ChildView::Inline(b) => syms_inline(av, rank, *b, bound, st1),
        }
    }
}

/// Entries from `start` on are recorded by no earlier entry.
pub open spec fn ev_fresh_from(m: Seq<EvMapItem>, start: int) -> bool {
    forall|i: int, j: int| 0 <= i < j < m.len() && start <= j ==> !item_matches(#[trigger] m[i], #[trigger] m[j])
}

/// `n` extends `m`, and what it appends is fresh.
pub open spec fn ev_grows(m: Seq<EvMapItem>, n: Seq<EvMapItem>) -> bool {
    &&& m.len() <= n.len()
    &&& n.subrange(0, m.len() as int) == m
    &&& ev_fresh_from(n, m.len() as int)
}

proof fn lemma_ev_grows_trans(a: Seq<EvMapItem>, b: Seq<EvMapItem>, c: Seq<EvMapItem>)
    requires
        ev_grows(a, b),
        ev_grows(b, c),
    ensures
        ev_grows(a, c),
{
    assert(c.subrange(0, a.len() as int) =~= b.subrange(0, a.len() as int));
    assert forall|i: int, j: int| 0 <= i < j < c.len() && a.len() <= j implies !item_matches(#[trigger] c[i], #[trigger] c[j]) by {
        if j < b.len() {
            assert(c[i] == b[i] && c[j] == b[j]);
        }
    }
}

/// Records `it` unless an entry already does.
fn push_item(ev_map: &mut Vec<EvMapItem>, it: EvMapItem)
    ensures
        final(ev_map)@ == add_item(old(ev_map)@, it),
        ev_grows(old(ev_map)@, final(ev_map)@),
{
    let mut k: usize = 0;
    let mut present = false;
    while k < ev_map.len()
        invariant
            k <= ev_map@.len(),
            present <==> exists|i: int| 0 <= i < k && item_matches(#[trigger] ev_map@[i], it),
        decreases ev_map.len() - k,
    {
        let item = ev_map[k];
        let m = item.entry_type == it.entry_type && item.id == it.id && item.prime == it.prime && (it.commit_id.is_none()
            || item.commit_id == it.commit_id);
        if m {
            proof {
                assert(item_matches(ev_map@[k as int], it));
            }
            present = true;
        }
        k = k + 1;
    }
    if !present {
        ev_map.push(it);
        proof {
            assert(ev_map@.subrange(0, ev_map@.len() - 1) =~= old(ev_map)@);
        }
    } else {
        proof {
            assert(ev_map@.subrange(0, ev_map@.len() as int) =~= ev_map@);
        }
    }
}

fn column_item_of(e: &Expression) -> (it: EvMapItem)
    ensures
        it == column_item(e@),
{
    EvMapItem {
        entry_type: e.op,
        id: match e.id {
            Some(i) => i,
            None => 0,
        },
        prime: match e.row_offset {
            Some(r) => r,
            None => 0,
        },
        commit_id: e.commit_id,
    }
}

/// Records the columns reached from arena entry `idx` that `ev_map` does not
/// hold yet, skipping entries already marked in `explored` and marking the
/// composite entries it finishes.
pub fn add_info_expressions_symbols(
    ev_map: &mut Vec<EvMapItem>,
    expressions: &[Expression],
    idx: usize,
    explored: &mut Vec<bool>,
)
    requires
        arena_wf(arena_view(expressions@)),
        idx < expressions@.len(),
        old(explored)@.len() == expressions@.len(),
    ensures
        (final(ev_map)@, final(explored)@) == syms_arena(
            arena_view(expressions@),
            canon_rank(arena_view(expressions@)),
            idx as int,
            (old(ev_map)@, old(explored)@),
        ),
        ev_grows(old(ev_map)@, final(ev_map)@),
{
    let ghost av = arena_view(expressions@);
    proof {
        assert(ranked(av, canon_rank(av)));
    }
    syms_arena_exec(ev_map, expressions, idx, explored, Ghost(canon_rank(av)))
}

fn syms_arena_exec(
    ev_map: &mut Vec<EvMapItem>,
    expressions: &[Expression],
    idx: usize,
    explored: &mut Vec<bool>,
    Ghost(rank): Ghost<Seq<nat>>,
)
    requires
        ranked(arena_view(expressions@), rank),
        idx < expressions@.len(),
        old(explored)@.len() == expressions@.len(),
    ensures
        (final(ev_map)@, final(explored)@) == syms_arena(
            arena_view(expressions@),
            rank,
            idx as int,
            (old(ev_map)@, old(explored)@),
        ),
        final(explored)@.len() == expressions@.len(),
        ev_grows(old(ev_map)@, final(ev_map)@),
    decreases rank[idx as int], arena_view(expressions@)[idx as int], arena_view(expressions@)[idx as int].values.len() + 2,
{
    let ghost av = arena_view(expressions@);
    let ghost e = av[idx as int];
    proof {
        assert(e == expressions@[idx as int]@);
        lemma_children_view(expressions@[idx as int].values@);
        assert(ev_grows(ev_map@, ev_map@)) by {
            assert(ev_map@.subrange(0, ev_map@.len() as int) =~= ev_map@);
        }
    }
    if explored[idx] {
        return;
    }
    let exp = &expressions[idx];
    match exp.op {
        ExprOp::Exp => {
            let ref_id = match exp.id {
                Some(i) => i,
                None => 0,
            };
            assert(refers_to(e, ref_id as int));
            syms_arena_exec(ev_map, expressions, ref_id, explored, Ghost(rank));
            explored.set(idx, true);
        },
        ExprOp::Cm | ExprOp::Const | ExprOp::Custom => {
            let it = column_item_of(exp);
            push_item(ev_map, it);
        },
        ExprOp::Add | ExprOp::Sub | ExprOp::Mul | ExprOp::Neg => {
            syms_children_exec(ev_map, expressions, exp, explored, Ghost(rank), Ghost(rank[idx as int]));
            explored.set(idx, true);
        },
        _ => {},
    }
}

fn syms_inline_exec(
    ev_map: &mut Vec<EvMapItem>,
    expressions: &[Expression],
    expr: &Expression,
    explored: &mut Vec<bool>,
    Ghost(rank): Ghost<Seq<nat>>,
    Ghost(bound): Ghost<nat>,
)
    requires
        ranked(arena_view(expressions@), rank),
        refs_below(arena_view(expressions@), rank, expr@, bound),
        old(explored)@.len() == expressions@.len(),
    ensures
        (final(ev_map)@, final(explored)@) == syms_inline(
            arena_view(expressions@),
            rank,
            expr@,
            bound,
            (old(ev_map)@, old(explored)@),
        ),
        final(explored)@.len() == expressions@.len(),
        ev_grows(old(ev_map)@, final(ev_map)@),
    decreases bound, expr@, expr@.values.len() + 1,
{
    let ghost av = arena_view(expressions@);
    proof {
        lemma_children_view(expr.values@);
        assert(ev_grows(ev_map@, ev_map@)) by {
            assert(ev_map@.subrange(0, ev_map@.len() as int) =~= ev_map@);
        }
    }
    match expr.op {
        ExprOp::Exp => {
            let ref_id = match expr.id {
                Some(i) => i,
                None => 0,
            };
            assert(refers_to(expr@, ref_id as int));
            syms_arena_exec(ev_map, expressions, ref_id, explored, Ghost(rank));
        },
        ExprOp::Cm | ExprOp::Const | ExprOp::Custom => {
            let it = column_item_of(expr);
            push_item(ev_map, it);
        },
        ExprOp::Add | ExprOp::Sub | ExprOp::Mul | ExprOp::Neg => {
            syms_children_exec(ev_map, expressions, expr, explored, Ghost(rank), Ghost(bound));
        },
        _ => {},
    }
}

/// Visits the children of `expr` in order.
fn syms_children_exec(
    ev_map: &mut Vec<EvMapItem>,
    expressions: &[Expression],
    expr: &Expression,
    explored: &mut Vec<bool>,
    Ghost(rank): Ghost<Seq<nat>>,
    Ghost(bound): Ghost<nat>,
)
    requires
        ranked(arena_view(expressions@), rank),
        refs_below(arena_view(expressions@), rank, expr@, bound),
        old(explored)@.len() == expressions@.len(),
    ensures
        (final(ev_map)@, final(explored)@) == syms_children(
            arena_view(expressions@),
            rank,
            expr@,
            expr@.values.len() as int,
            (old(ev_map)@, old(explored)@),
            bound,
        ),
        final(explored)@.len() == expressions@.len(),
        ev_grows(old(ev_map)@, final(ev_map)@),
    decreases bound, expr@, expr@.values.len(),
{
    let ghost av = arena_view(expressions@);
    let ghost st0 = (ev_map@, explored@);
    proof {
        lemma_children_view(expr.values@);
        lemma_node_pointwise(expr@);
        assert(ev_grows(ev_map@, ev_map@)) by {
            assert(ev_map@.subrange(0, ev_map@.len() as int) =~= ev_map@);
        }
    }
    let n = expr.values.len();
    let mut k: usize = 0;
    while k < n
        invariant
            n == expr@.values.len(),
            n == expr.values@.len(),
            k <= n,
            ranked(av, rank),
            av == arena_view(expressions@),
            refs_below(av, rank, expr@, bound),
            forall|i: int| 0 <= i < n ==> #[trigger] expr@.values[i] == expr.values@[i]@,
            explored@.len() == expressions@.len(),
            (ev_map@, explored@) == syms_children(av, rank, expr@, k as int, st0, bound),
            ev_grows(st0.0, ev_map@),
        decreases n - k,
    {
        let ghost m_before = ev_map@;
        match &expr.values[k] {
            ExprChild::Id(id) => {
                let j = *id;
                proof {
                    assert(child_refers_to(expr@.values[k as int], j as int));
                    lemma_child_refs(expr@, k as int, j as int);
                }
                syms_arena_exec(ev_map, expressions, j, explored, Ghost(rank));
            },
            ExprChild::Inline(b) => {
                proof {
                    assert forall|i: int| #[trigger] refers_to(b@, i) implies 0 <= i < av.len() && rank[i] < bound by {
                        assert(child_refers_to(expr@.values[k as int], i));
                        lemma_child_refs(expr@, k as int, i);
                    }
                }
                syms_inline_exec(ev_map, expressions, &**b, explored, Ghost(rank), Ghost(bound));
            },
        }
        proof {
            lemma_ev_grows_trans(st0.0, m_before, ev_map@);
        }
        k = k + 1;
    }
}


// ---------------------------------------------------------------------------
// Sane arenas: dimension and degree are defined everywhere
// ---------------------------------------------------------------------------

proof fn lemma_sane_dim_ok(av: Seq<ExprView>, rank: Seq<nat>, e: ExprView, bound: nat)
    requires
        ranked(av, rank),
        arena_sane(av),
        tree_sane(e),
        refs_below(av, rank, e, bound),
    ensures
        dim_ok(av, rank, e, bound),
    decreases bound, e, e.values.len() + 1,
{
    if !(e.dim > 0 && !is_arith(e.op)) {
        lemma_sane_dim_children_ok(av, rank, e, e.values.len() as int, bound);
    }
}

proof fn lemma_sane_dim_children_ok(av: Seq<ExprView>, rank: Seq<nat>, e: ExprView, k: int, bound: nat)
    requires
        ranked(av, rank),
        arena_sane(av),
        tree_sane(e),
        refs_below(av, rank, e, bound),
        0 <= k <= e.values.len(),
    ensures
        dim_children_ok(av, rank, e, k, bound),
    decreases bound, e, k,
{
    if k > 0 {
        lemma_sane_dim_children_ok(av, rank, e, k - 1, bound);
        lemma_node_pointwise(e);
        assert(child_sane(e.values[k - 1]));
        match e.values[k - 1] {
            ChildView::Id(j) => {
                if j < av.len() && rank.len() == av.len() && rank[j as int] < bound {
                    assert(tree_sane(av[j as int]));
                    lemma_sane_dim_ok(av, rank, av[j as int], rank[j as int]);
                }
            },
            ChildView::Inline(b) => {
                assert forall|i: int| #[trigger] refers_to(*b, i) implies 0 <= i < av.len() && rank[i] < bound by {
                    assert(child_refers_to(e.values[k - 1], i));
                    lemma_child_refs(e, k - 1, i);
                }
                lemma_sane_dim_ok(av, rank, *b, bound);
            },
        }
    }
}

proof fn lemma_sane_deg_ok(av: Seq<ExprView>, rank: Seq<nat>, im: Seq<usize>, e: ExprView, bound: nat)
    requires
        ranked(av, rank),
        arena_sane(av),
        tree_sane(e),
        refs_below(av, rank, e, bound),
    ensures
        crate::constraint_poly::deg_ok(av, rank, im, e, bound),
    decreases bound, e,
{
    lemma_node_pointwise(e);
    match e.op {
        ExprOp::Exp => {
            let j = exp_target(e);
            if 0 <= j < av.len() && rank.len() == av.len() && rank[j] < bound {
                assert(tree_sane(av[j]));
                lemma_sane_deg_ok(av, rank, im, av[j], rank[j]);
            }
        },
        ExprOp::Neg | ExprOp::Add | ExprOp::Sub | ExprOp::Mul => {
            if e.values.len() >= 1 {
                lemma_sane_deg_child_ok(av, rank, im, e, 0, bound);
            }
            if e.values.len() >= 2 {
                lemma_sane_deg_child_ok(av, rank, im, e, 1, bound);
            }
        },
        _ => {},
    }
}

proof fn lemma_sane_deg_child_ok(av: Seq<ExprView>, rank: Seq<nat>, im: Seq<usize>, e: ExprView, k: int, bound: nat)
    requires
        ranked(av, rank),
        arena_sane(av),
        tree_sane(e),
        refs_below(av, rank, e, bound),
        0 <= k < e.values.len(),
    ensures
        crate::constraint_poly::deg_ok_child(av, rank, im, e.values[k], bound),
    decreases bound, e.values[k],
{
    lemma_node_pointwise(e);
    assert(child_sane(e.values[k]));
    match e.values[k] {
        ChildView::Id(j) => {
            if j < av.len() && rank.len() == av.len() && rank[j as int] < bound {
                assert(tree_sane(av[j as int]));
                lemma_sane_deg_ok(av, rank, im, av[j as int], rank[j as int]);
            }
        },
        ChildView::Inline(b) => {
            assert forall|i: int| #[trigger] refers_to(*b, i) implies 0 <= i < av.len() && rank[i] < bound by {
                assert(child_refers_to(e.values[k], i));
                lemma_child_refs(e, k, i);
            }
            lemma_sane_deg_ok(av, rank, im, *b, bound);
        },
    }
}

proof fn lemma_sane_dim_pos(av: Seq<ExprView>, rank: Seq<nat>, e: ExprView, bound: nat)
    requires
        ranked(av, rank),
        arena_wf(av),
        arena_sane(av),
        tree_sane(e),
        well_shaped(e),
        refs_below(av, rank, e, bound),
    ensures
        dim_expr(av, rank, e, bound) >= 1,
    decreases bound, e, e.values.len() + 1,
{
    lemma_node_pointwise(e);
    if is_arith(e.op) {
        lemma_dim_children_pos(av, rank, e, e.values.len() as int, bound);
    }
}

proof fn lemma_dim_children_pos(av: Seq<ExprView>, rank: Seq<nat>, e: ExprView, k: int, bound: nat)
    requires
        ranked(av, rank),
        arena_wf(av),
        arena_sane(av),
        tree_sane(e),
        well_shaped(e),
        refs_below(av, rank, e, bound),
        1 <= k <= e.values.len(),
    ensures
        dim_children(av, rank, e, k, bound) >= 1,
    decreases bound, e, k,
{
    lemma_node_pointwise(e);
    assert(child_sane(e.values[k - 1]));
    assert(child_well_shaped(e.values[k - 1]));
    match e.values[k - 1] {
        ChildView::Id(j) => {
            assert(child_refers_to(e.values[k - 1], j as int));
            lemma_child_refs(e, k - 1, j as int);
            assert(tree_sane(av[j as int]));
            assert(well_shaped(av[j as int]));
            lemma_sane_dim_pos(av, rank, av[j as int], rank[j as int]);
        },
        ChildView::Inline(b) => {
            assert forall|i: int| #[trigger] refers_to(*b, i) implies 0 <= i < av.len() && rank[i] < bound by {
                assert(child_refers_to(e.values[k - 1], i));
                lemma_child_refs(e, k - 1, i);
            }
            lemma_sane_dim_pos(av, rank, *b, bound);
        },
    }
}

/// In a well-formed sane arena every entry has a dimension of at least one.
pub proof fn lemma_sane_exp_dim_pos(av: Seq<ExprView>, idx: int)
    requires
        arena_wf(av),
        arena_sane(av),
        0 <= idx < av.len(),
    ensures
        exp_dim(av, idx) >= 1,
{
    let rank = canon_rank(av);
    assert(ranked(av, rank));
    assert(tree_sane(av[idx]));
    assert(well_shaped(av[idx]));
    lemma_sane_dim_pos(av, rank, av[idx], rank[idx]);
}

/// In a well-formed sane arena the dimension and the degree of every entry
/// are defined.
pub proof fn lemma_sane_arena_defined(av: Seq<ExprView>, im: Seq<usize>, idx: int)
    requires
        arena_wf(av),
        arena_sane(av),
        0 <= idx < av.len(),
    ensures
        exp_dim_ok(av, idx),
        crate::constraint_poly::exp_degree_ok(av, im, idx),
{
    let rank = canon_rank(av);
    assert(ranked(av, rank));
    assert(tree_sane(av[idx]));
    lemma_sane_dim_ok(av, rank, av[idx], rank[idx]);
    lemma_sane_deg_ok(av, rank, im, av[idx], rank[idx]);
}


/// Keeping annotations is reflexive.
pub proof fn lemma_keeps_refl(a: Seq<ExprView>)
    ensures
        keeps_annotations(a, a),
{
    assert forall|i: int| 0 <= i < a.len() implies #[trigger] entry_shape(a[i], a[i]) by {
        lemma_entry_shape_refl(a[i]);
    }
}

/// Appending an entry keeps the annotations.
pub proof fn lemma_keeps_push(a: Seq<ExprView>, e: ExprView)
    ensures
        keeps_annotations(a, a.push(e)),
{
    assert forall|i: int| 0 <= i < a.len() implies #[trigger] entry_shape(a[i], a.push(e)[i]) by {
        assert(a.push(e)[i] == a[i]);
        lemma_entry_shape_refl(a[i]);
    }
    assert forall|i: int| 0 <= i < a.len() && a[i].info_computed implies #[trigger] kept(a.push(e)[i], a[i]) by {
        assert(a.push(e)[i] == a[i]);
    }
}

/// Keeping annotations is transitive.
pub proof fn lemma_keeps_trans(a: Seq<ExprView>, b: Seq<ExprView>, c: Seq<ExprView>)
    requires
        keeps_annotations(a, b),
        keeps_annotations(b, c),
    ensures
        keeps_annotations(a, c),
{
    assert forall|i: int| 0 <= i < a.len() && a[i].info_computed implies #[trigger] kept(c[i], a[i]) by {
        assert(kept(b[i], a[i]));
        assert(b[i].info_computed);
        assert(kept(c[i], b[i]));
    }
    assert forall|i: int| 0 <= i < a.len() implies #[trigger] entry_shape(a[i], c[i]) by {
        assert(entry_shape(a[i], b[i]));
        assert(entry_shape(b[i], c[i]));
        lemma_entry_shape_trans(a[i], b[i], c[i]);
    }
}

/// The node an inline child holds.
pub open spec fn inline_of(c: ChildView) -> ExprView {
    match c {
        ChildView::Inline(b) => *b,
        ChildView::Id(_) => arbitrary(),
    }
}

/// A node with two childless inline children: its structure and references.
pub proof fn lemma_pair_facts(e: ExprView)
    requires
        e.values.len() == 2,
        e.values[0] is Inline,
        e.values[1] is Inline,
        inline_of(e.values[0]).values.len() == 0,
        inline_of(e.values[1]).values.len() == 0,
    ensures
        crate::expression::arity(e.op) <= 2 && crate::expression::arity(inline_of(e.values[0]).op) == 0
            && crate::expression::arity(inline_of(e.values[1]).op) == 0 ==> well_shaped(e),
        info_known_op(e.op) && info_known_op(inline_of(e.values[0]).op) && info_known_op(inline_of(e.values[1]).op)
            ==> tree_known(e),
        e.dim >= 1 && crate::constraint_poly::deg_known_op(e.op) && inline_of(e.values[0]).dim >= 1
            && crate::constraint_poly::deg_known_op(inline_of(e.values[0]).op) && inline_of(e.values[1]).dim >= 1
            && crate::constraint_poly::deg_known_op(inline_of(e.values[1]).op) ==> tree_sane(e),
        e.op != ExprOp::Neg && inline_of(e.values[0]).op != ExprOp::Neg && inline_of(e.values[1]).op != ExprOp::Neg
            ==> tree_nn(e),
        forall|j: int| #[trigger] refers_to(e, j) ==> (e.op == ExprOp::Exp && exp_target(e) == j) || (
        inline_of(e.values[0]).op == ExprOp::Exp && exp_target(inline_of(e.values[0])) == j) || (
        inline_of(e.values[1]).op == ExprOp::Exp && exp_target(inline_of(e.values[1])) == j),
{
    let a = inline_of(e.values[0]);
    let b = inline_of(e.values[1]);
    lemma_node_pointwise(e);
    lemma_node_pointwise(a);
    lemma_node_pointwise(b);
    assert forall|j: int| #[trigger] refers_to(e, j) implies (e.op == ExprOp::Exp && exp_target(e) == j) || (a.op
        == ExprOp::Exp && exp_target(a) == j) || (b.op == ExprOp::Exp && exp_target(b) == j) by {
        if !(e.op == ExprOp::Exp && exp_target(e) == j) {
            let k = choose|k: int| 0 <= k < e.values.len() && #[trigger] child_refers_to(e.values[k], j);
            if k == 0 {
                assert(refers_to(a, j));
            } else {
                assert(refers_to(b, j));
            }
        }
    }
}


/// A childless `number` node is well shaped, known, sane (with a dimension)
/// and refers to nothing.
pub proof fn lemma_leaf_facts_pub(x: ExprView)
    requires
        x.values.len() == 0,
        x.op == ExprOp::Number,
    ensures
        well_shaped(x),
        tree_known(x),
        tree_nn(x),
        x.dim >= 1 ==> tree_sane(x),
        forall|j: int| !refers_to(x, j),
{
    lemma_leaf_facts(x);
}

} // verus!
