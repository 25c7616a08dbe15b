//! The FRI polynomial: every opened column minus its evaluation, folded per
//! opening point with the challenge `std_vf2`, each opening's sum multiplied
//! by its `xDivXSubXi`, and the openings folded with the challenge `std_vf1`.
use vstd::prelude::*;
use crate::codegen::{lemma_gen_pointwise, tree_gen, child_gen, gen_op, arena_gen};
use crate::constraint_poly::{challenges_before, count_challenges_before, lemma_push_wf};
use crate::expression::{
    arena_view, arena_wf, canon_rank, child_refers_to, exp_target, inline_wf, lemma_children_view, ranked, refers_to,
    well_shaped, ChildView, ExprChild, ExprOp, ExprView, Expression,
};
use crate::helpers::{
    arena_known, child_known, dim_children_ok, dim_expr, dim_ok, get_inline_dim, is_arith, lemma_node_pointwise,
    tree_known, EvMapItem,
};
use crate::pilout_info::{SymbolInfo, SymType, FIELD_EXTENSION};

verus! {

/// Result of building the FRI polynomial.
#[derive(Debug, Clone, Copy)]
pub struct FriPolyResult {
    /// Arena index of the FRI polynomial.
    pub fri_exp_id: usize,
}

/// A challenge, as listed in the challenges map.
#[derive(Debug)]
pub struct ChallengeMapEntry {
    pub name: String,
    pub stage: usize,
    pub dim: usize,
    pub stage_id: usize,
}

// ---------------------------------------------------------------------------
// The nodes of the polynomial
// ---------------------------------------------------------------------------

/// A node with operation `op` and every other field at its default.
pub open spec fn blank_view(op: ExprOp) -> ExprView {
    ExprView {
        op,
        values: Seq::empty(),
        id: None,
        dim: 1,
        stage: 0,
        exp_deg: 0,
        row_offset: None,
        rows_offsets: Seq::empty(),
        value: None,
        boundary_id: None,
        boundary: None,
        opening: None,
        commit_id: None,
        stage_id: None,
        airgroup_id: None,
        im_pol: false,
        pol_id: None,
        keep: None,
        info_computed: false,
        line: None,
    }
}

/// The node `op(a, b)` over two inline children.
pub open spec fn pair_view(op: ExprOp, a: ExprView, b: ExprView) -> ExprView {
    ExprView { values: seq![ChildView::Inline(Box::new(a)), ChildView::Inline(Box::new(b))], ..blank_view(op) }
}

/// The challenge node `name` of stage `stage`.
pub open spec fn vf_view(name: Seq<char>, stage: usize, stage_id: usize, id: usize) -> ExprView {
    ExprView {
        value: Some(name),
        stage,
        dim: FIELD_EXTENSION,
        stage_id: Some(stage_id),
        id: Some(id),
        ..blank_view(ExprOp::Challenge)
    }
}

/// The column node of evaluation-map item `it`, described by symbol `s`.
pub open spec fn col_view(it: EvMapItem, s: SymbolInfo) -> ExprView {
    ExprView {
        id: Some(it.id),
        row_offset: Some(0),
        stage: match s.stage {
            Some(x) => x,
            None => 0,
        },
        dim: s.dim,
        commit_id: s.commit_id,
        ..blank_view(it.entry_type)
    }
}

/// The evaluation `i` of the evaluation map.
pub open spec fn eval_view(i: usize) -> ExprView {
    ExprView { id: Some(i), dim: FIELD_EXTENSION, ..blank_view(ExprOp::Eval) }
}

/// The `xDivXSubXi` node of opening point `p`, the `i`-th one.
pub open spec fn xdiv_view(p: i64, i: usize) -> ExprView {
    ExprView { opening: Some(p), id: Some(i), ..blank_view(ExprOp::XDivXSubXi) }
}

/// `s` is the challenge `name` of stage `stage` with index `id` and
/// position `stage_id` in its stage.
pub open spec fn is_vf_symbol(s: SymbolInfo, name: Seq<char>, stage: usize, stage_id: usize, id: usize) -> bool {
    &&& s.sym_type == SymType::Challenge
    &&& s.name@ == name
    &&& s.stage == Some(stage)
    &&& s.dim == FIELD_EXTENSION
    &&& s.stage_id == Some(stage_id)
    &&& s.id == Some(id)
    &&& s.pol_id is None
    &&& s.air_id is None
    &&& s.airgroup_id is None
    &&& s.commit_id is None
    &&& s.lengths is None
    &&& s.idx is None
    &&& s.stage_pos is None
    &&& !s.im_pol
    &&& s.exp_id is None
}

/// The symbol kind of a column kind.
pub open spec fn sym_kind(t: ExprOp) -> SymType {
    if t == ExprOp::Const {
        SymType::Fixed
    } else if t == ExprOp::Cm {
        SymType::Witness
    } else {
        SymType::Custom
    }
}

/// Symbol `s` describes the column of item `it`.
pub open spec fn sym_matches(s: SymbolInfo, it: EvMapItem) -> bool {
    &&& s.pol_id == Some(it.id)
    &&& s.sym_type == sym_kind(it.entry_type)
    &&& (it.entry_type != ExprOp::Custom || s.commit_id == it.commit_id)
}

/// Index of the first symbol from position `i` on that describes `it`.
pub open spec fn sym_from(syms: Seq<SymbolInfo>, it: EvMapItem, i: int) -> Option<int>
    decreases syms.len() - i,
{
    if i < 0 || i >= syms.len() {
        None
    } else if sym_matches(syms[i], it) {
        Some(i)
    } else {
        sym_from(syms, it, i + 1)
    }
}

/// The symbol that describes the column of `it`.
pub open spec fn ev_symbol(syms: Seq<SymbolInfo>, it: EvMapItem) -> SymbolInfo {
    syms[sym_from(syms, it, 0).unwrap()]
}

/// Every item is a column with a symbol that describes it.
pub open spec fn ev_resolvable(syms: Seq<SymbolInfo>, ev: Seq<EvMapItem>) -> bool {
    &&& forall|k: int|
        0 <= k < ev.len() ==> (#[trigger] ev[k]).entry_type == ExprOp::Cm || ev[k].entry_type == ExprOp::Const
            || ev[k].entry_type == ExprOp::Custom
    &&& forall|k: int| 0 <= k < ev.len() ==> sym_from(syms, #[trigger] ev[k], 0) is Some
}

/// The sum of the first `k` items at opening `p`: `col - eval` for the first
/// one, then `acc * vf2 + (col - eval)` for each further one.
pub open spec fn prime_acc(ev: Seq<EvMapItem>, syms: Seq<SymbolInfo>, p: i64, vf2: ExprView, k: int) -> Option<ExprView>
    decreases k,
{
    if k <= 0 {
        None
    } else {
        let prev = prime_acc(ev, syms, p, vf2, k - 1);
        let it = ev[k - 1];
        if it.prime != p {
            prev
        } else {
            let term = pair_view(ExprOp::Sub, col_view(it, ev_symbol(syms, it)), eval_view((k - 1) as usize));
            match prev {
                None => Some(term),
                Some(a) => Some(pair_view(ExprOp::Add, pair_view(ExprOp::Mul, a, vf2), term)),
            }
        }
    }
}

/// The polynomial over the first `k` opening points: each opening's sum
/// times its `xDivXSubXi` (openings without items, or seen before, are
/// skipped), folded as `vf1 * acc + term`.
pub open spec fn fri_acc(
    ev: Seq<EvMapItem>,
    syms: Seq<SymbolInfo>,
    ops: Seq<i64>,
    vf1: ExprView,
    vf2: ExprView,
    k: int,
) -> Option<ExprView>
    decreases k,
{
    if k <= 0 {
        None
    } else {
        let prev = fri_acc(ev, syms, ops, vf1, vf2, k - 1);
        let p = ops[k - 1];
        let s = prime_acc(ev, syms, p, vf2, ev.len() as int);
        if ops.subrange(0, k - 1).contains(p) || s is None {
            prev
        } else {
            let m = pair_view(ExprOp::Mul, s.unwrap(), xdiv_view(p, (k - 1) as usize));
            match prev {
                None => Some(m),
                Some(f) => Some(pair_view(ExprOp::Add, pair_view(ExprOp::Mul, vf1, f), m)),
            }
        }
    }
}

proof fn lemma_prime_acc_some(ev: Seq<EvMapItem>, syms: Seq<SymbolInfo>, p: i64, vf2: ExprView, i: int, k: int)
    requires
        0 <= i < k <= ev.len(),
        ev[i].prime == p,
    ensures
        prime_acc(ev, syms, p, vf2, k) is Some,
    decreases k,
{
    if i < k - 1 {
        lemma_prime_acc_some(ev, syms, p, vf2, i, k - 1);
    }
}

proof fn lemma_fri_some(ev: Seq<EvMapItem>, syms: Seq<SymbolInfo>, ops: Seq<i64>, vf1: ExprView, vf2: ExprView, j: int, k: int)
    requires
        0 <= j < k <= ops.len(),
        prime_acc(ev, syms, ops[j], vf2, ev.len() as int) is Some,
    ensures
        fri_acc(ev, syms, ops, vf1, vf2, k) is Some,
    decreases k, j,
{
    if j < k - 1 {
        lemma_fri_some(ev, syms, ops, vf1, vf2, j, k - 1);
    } else {
        let p = ops[k - 1];
        if ops.subrange(0, k - 1).contains(p) {
            let j2 = choose|j2: int| 0 <= j2 < k - 1 && #[trigger] ops.subrange(0, k - 1)[j2] == p;
            assert(ops[j2] == p);
            lemma_fri_some(ev, syms, ops, vf1, vf2, j2, k - 1);
        }
    }
}

// ---------------------------------------------------------------------------
// Shape of the nodes
// ---------------------------------------------------------------------------

/// What holds of every node built here, in arena `av`.
pub open spec fn piece_ok(av: Seq<ExprView>, e: ExprView) -> bool {
    &&& forall|j: int| !#[trigger] refers_to(e, j)
    &&& well_shaped(e)
    &&& tree_known(e)
    &&& tree_gen(e)
    &&& dim_ok(av, canon_rank(av), e, 0)
}

proof fn lemma_leaf_ok(av: Seq<ExprView>, e: ExprView)
    requires
        e.values.len() == 0,
        e.op == ExprOp::Cm || e.op == ExprOp::Const || e.op == ExprOp::Custom || e.op == ExprOp::Eval || e.op
            == ExprOp::Challenge || e.op == ExprOp::XDivXSubXi,
    ensures
        piece_ok(av, e),
{
    lemma_node_pointwise(e);
    lemma_gen_pointwise(e);
    assert forall|j: int| !#[trigger] refers_to(e, j) by {}
}

proof fn lemma_pair_ok(av: Seq<ExprView>, op: ExprOp, a: ExprView, b: ExprView)
    requires
        piece_ok(av, a),
        piece_ok(av, b),
        op == ExprOp::Add || op == ExprOp::Sub || op == ExprOp::Mul,
    ensures
        piece_ok(av, pair_view(op, a, b)),
{
    let e = pair_view(op, a, b);
    lemma_node_pointwise(e);
    lemma_gen_pointwise(e);
    assert(child_known(e.values[0]) && child_known(e.values[1]));
    assert(child_gen(e.values[0]) && child_gen(e.values[1]));
    assert forall|j: int| !#[trigger] refers_to(e, j) by {
        if refers_to(e, j) {
            let k = choose|k: int| 0 <= k < e.values.len() && #[trigger] child_refers_to(e.values[k], j);
            if k == 0 {
                assert(refers_to(a, j));
            } else {
                assert(refers_to(b, j));
            }
        }
    }
    let r = canon_rank(av);
    assert(dim_children_ok(av, r, e, 0, 0));
    assert(dim_children_ok(av, r, e, 1, 0));
    assert(dim_children_ok(av, r, e, 2, 0));
}

fn blank_node(op: ExprOp) -> (e: Expression)
    ensures
        e@ == blank_view(op),
{
    let e = Expression::new(op);
    proof {
        lemma_children_view(e.values@);
        assert(e@.values =~= Seq::<ChildView>::empty());
        assert(e@.rows_offsets =~= Seq::<i64>::empty());
    }
    e
}

fn pair_node(op: ExprOp, a: Expression, b: Expression) -> (e: Expression)
    ensures
        e@ == pair_view(op, a@, b@),
{
    let mut e = blank_node(op);
    let mut v: Vec<ExprChild> = Vec::new();
    v.push(ExprChild::Inline(Box::new(a)));
    v.push(ExprChild::Inline(Box::new(b)));
    e.values = v;
    proof {
        lemma_children_view(e.values@);
        assert(e@.values =~= seq![ChildView::Inline(Box::new(a@)), ChildView::Inline(Box::new(b@))]);
    }
    e
}

fn vf_node(name: &str, stage: usize, stage_id: usize, id: usize) -> (e: Expression)
    ensures
        e@ == vf_view(name@, stage, stage_id, id),
{
    let mut e = blank_node(ExprOp::Challenge);
    e.value = Some(String::from_str(name));
    e.stage = stage;
    e.dim = FIELD_EXTENSION;
    e.stage_id = Some(stage_id);
    e.id = Some(id);
    e
}

// ---------------------------------------------------------------------------
// The per-opening sums, kept by opening point
// ---------------------------------------------------------------------------

/// The sums by opening point, as values.
pub open spec fn accs_view(v: Seq<(i64, Expression)>) -> Seq<(i64, ExprView)> {
    v.map_values(|x: (i64, Expression)| (x.0, x.1@))
}

/// No opening point occurs twice.
pub open spec fn keys_unique(v: Seq<(i64, ExprView)>) -> bool {
    forall|a: int, b: int| 0 <= a < b < v.len() ==> v[a].0 != v[b].0
}

/// The sum kept for opening `p`.
pub open spec fn acc_of(v: Seq<(i64, ExprView)>, p: i64) -> Option<ExprView> {
    if exists|k: int| 0 <= k < v.len() && v[k].0 == p {
        Some(v[choose|k: int| 0 <= k < v.len() && v[k].0 == p].1)
    } else {
        None
    }
}

proof fn lemma_acc_at(v: Seq<(i64, ExprView)>, k: int)
    requires
        keys_unique(v),
        0 <= k < v.len(),
    ensures
        acc_of(v, v[k].0) == Some(v[k].1),
{
    let c = choose|c: int| 0 <= c < v.len() && v[c].0 == v[k].0;
    if c != k {
        if c < k {
            assert(v[c].0 != v[k].0);
        } else {
            assert(v[k].0 != v[c].0);
        }
    }
}

proof fn lemma_acc_update(v: Seq<(i64, ExprView)>, pos: int, x: ExprView, q: i64)
    requires
        keys_unique(v),
        0 <= pos < v.len(),
    ensures
        keys_unique(v.update(pos, (v[pos].0, x))),
        acc_of(v.update(pos, (v[pos].0, x)), q) == if q == v[pos].0 { Some(x) } else { acc_of(v, q) },
{
    let n = v.update(pos, (v[pos].0, x));
    assert forall|a: int, b: int| 0 <= a < b < n.len() implies n[a].0 != n[b].0 by {
        assert(v[a].0 != v[b].0);
    }
    if q == v[pos].0 {
        lemma_acc_at(n, pos);
    } else {
        if exists|k: int| 0 <= k < v.len() && v[k].0 == q {
            let k = choose|k: int| 0 <= k < v.len() && v[k].0 == q;
            lemma_acc_at(v, k);
            assert(n[k].0 == q);
            lemma_acc_at(n, k);
        } else {
            assert(!exists|k: int| 0 <= k < n.len() && n[k].0 == q) by {
                if exists|k: int| 0 <= k < n.len() && n[k].0 == q {
                    let k = choose|k: int| 0 <= k < n.len() && n[k].0 == q;
                    assert(v[k].0 == q);
                }
            }
        }
    }
}

proof fn lemma_acc_push(v: Seq<(i64, ExprView)>, p: i64, x: ExprView, q: i64)
    requires
        keys_unique(v),
        acc_of(v, p) is None,
    ensures
        keys_unique(v.push((p, x))),
        acc_of(v.push((p, x)), q) == if q == p { Some(x) } else { acc_of(v, q) },
{
    let n = v.push((p, x));
    assert forall|a: int, b: int| 0 <= a < b < n.len() implies n[a].0 != n[b].0 by {
        if b == v.len() {
            assert(v[a].0 != p);
        } else {
            assert(v[a].0 != v[b].0);
        }
    }
    if q == p {
        lemma_acc_at(n, v.len() as int);
    } else {
        if exists|k: int| 0 <= k < v.len() && v[k].0 == q {
            let k = choose|k: int| 0 <= k < v.len() && v[k].0 == q;
            lemma_acc_at(v, k);
            assert(n[k] == v[k]);
            lemma_acc_at(n, k);
        } else {
            assert(!exists|k: int| 0 <= k < n.len() && n[k].0 == q) by {
                if exists|k: int| 0 <= k < n.len() && n[k].0 == q {
                    let k = choose|k: int| 0 <= k < n.len() && n[k].0 == q;
                    if k < v.len() {
                        assert(v[k].0 == q);
                    }
                }
            }
        }
    }
}

proof fn lemma_acc_remove(v: Seq<(i64, ExprView)>, pos: int, q: i64)
    requires
        keys_unique(v),
        0 <= pos < v.len(),
    ensures
        keys_unique(v.remove(pos)),
        acc_of(v.remove(pos), q) == if q == v[pos].0 { None } else { acc_of(v, q) },
{
    let n = v.remove(pos);
    assert forall|a: int, b: int| 0 <= a < b < n.len() implies n[a].0 != n[b].0 by {
        let a2 = if a < pos { a } else { a + 1 };
        let b2 = if b < pos { b } else { b + 1 };
        assert(n[a] == v[a2]);
        assert(n[b] == v[b2]);
        assert(v[a2].0 != v[b2].0);
    }
    if q == v[pos].0 {
        assert(!exists|k: int| 0 <= k < n.len() && n[k].0 == q) by {
            if exists|k: int| 0 <= k < n.len() && n[k].0 == q {
                let k = choose|k: int| 0 <= k < n.len() && n[k].0 == q;
                let k2 = if k < pos { k } else { k + 1 };
                assert(n[k] == v[k2]);
                if k2 < pos {
                    assert(v[k2].0 != v[pos].0);
                } else {
                    assert(v[pos].0 != v[k2].0);
                }
            }
        }
    } else {
        if exists|k: int| 0 <= k < v.len() && v[k].0 == q {
            let k = choose|k: int| 0 <= k < v.len() && v[k].0 == q;
            lemma_acc_at(v, k);
            assert(k != pos);
            let k2 = if k < pos { k } else { k - 1 };
            assert(n[k2] == v[k]);
            lemma_acc_at(n, k2);
        } else {
            assert(!exists|k: int| 0 <= k < n.len() && n[k].0 == q) by {
                if exists|k: int| 0 <= k < n.len() && n[k].0 == q {
                    let k = choose|k: int| 0 <= k < n.len() && n[k].0 == q;
                    let k2 = if k < pos { k } else { k + 1 };
                    assert(n[k] == v[k2]);
                }
            }
        }
    }
}

fn find_key(v: &Vec<(i64, Expression)>, p: i64) -> (r: Option<usize>)
    requires
        keys_unique(accs_view(v@)),
    ensures
        match r {
            Some(k) => k < v@.len() && v@[k as int].0 == p,
            None => acc_of(accs_view(v@), p) is None,
        },
{
    let mut i: usize = 0;
    while i < v.len()
        invariant
            i <= v@.len(),
            forall|t: int| 0 <= t < i ==> v@[t].0 != p,
        decreases v.len() - i,
    {
        if v[i].0 == p {
            return Some(i);
        }
        i = i + 1;
    }
    proof {
        let av = accs_view(v@);
        assert(!exists|k: int| 0 <= k < av.len() && av[k].0 == p) by {
            if exists|k: int| 0 <= k < av.len() && av[k].0 == p {
                let k = choose|k: int| 0 <= k < av.len() && av[k].0 == p;
                assert(v@[k].0 == p);
            }
        }
    }
    None
}

fn find_symbol(symbols: &Vec<SymbolInfo>, it: &EvMapItem) -> (r: usize)
    requires
        sym_from(symbols@, *it, 0) is Some,
    ensures
        sym_from(symbols@, *it, 0) == Some(r as int),
{
    let mut i: usize = 0;
    while i < symbols.len()
        invariant
            i <= symbols@.len(),
            sym_from(symbols@, *it, 0) == sym_from(symbols@, *it, i as int),
        decreases symbols.len() - i,
    {
        let s = &symbols[i];
        let kind = match it.entry_type {
            ExprOp::Const => SymType::Fixed,
            ExprOp::Cm => SymType::Witness,
            _ => SymType::Custom,
        };
        let is_custom = match it.entry_type {
            ExprOp::Custom => true,
            _ => false,
        };
        if s.pol_id == Some(it.id) && s.sym_type == kind && (!is_custom || s.commit_id == it.commit_id) {
            return i;
        }
        i = i + 1;
    }
    proof {
        assert(sym_from(symbols@, *it, symbols@.len() as int) is None);
    }
    0
}

proof fn lemma_sym_from_range(s: Seq<SymbolInfo>, it: EvMapItem, i: int)
    ensures
        sym_from(s, it, i) matches Some(k) ==> 0 <= k < s.len(),
    decreases s.len() - i,
{
    if 0 <= i < s.len() {
        lemma_sym_from_range(s, it, i + 1);
    }
}

proof fn lemma_sym_from_extend(s0: Seq<SymbolInfo>, s1: Seq<SymbolInfo>, it: EvMapItem, i: int)
    requires
        0 <= i,
        s1.len() >= s0.len(),
        forall|k: int| 0 <= k < s0.len() ==> s1[k] == s0[k],
        sym_from(s0, it, i) is Some,
    ensures
        sym_from(s1, it, i) == sym_from(s0, it, i),
    decreases s0.len() - i,
{
    if i < s0.len() && !sym_matches(s0[i], it) {
        lemma_sym_from_extend(s0, s1, it, i + 1);
    }
}

/// The `i`-th challenge of `challenges_map` becomes `entry`, the map grown
/// with empty entries as needed.
pub open spec fn extended(m: Seq<(Seq<char>, usize, usize, usize)>, id: int, entry: (Seq<char>, usize, usize, usize)) -> Seq<(Seq<char>, usize, usize, usize)> {
    let ext = if m.len() <= id { m + Seq::new((id + 1 - m.len()) as nat, |i: int| (Seq::<char>::empty(), 0usize, 0usize, 0usize)) } else { m };
    ext.update(id, entry)
}

/// Model of a challenges map.
pub open spec fn cmap_view(m: Seq<ChallengeMapEntry>) -> Seq<(Seq<char>, usize, usize, usize)> {
    m.map_values(|c: ChallengeMapEntry| (c.name@, c.stage, c.dim, c.stage_id))
}

pub(crate) fn extend_challenges_map(challenges_map: &mut Vec<ChallengeMapEntry>, id: usize, name: &str, stage: usize, dim: usize, stage_id: usize)
    ensures
        cmap_view(final(challenges_map)@) == extended(cmap_view(old(challenges_map)@), id as int, (name@, stage, dim, stage_id)),
{
    let ghost m0 = cmap_view(challenges_map@);
    while challenges_map.len() <= id
        invariant
            challenges_map@.len() >= m0.len(),
            cmap_view(challenges_map@) == m0 + Seq::new(
                (challenges_map@.len() - m0.len()) as nat,
                |i: int| (Seq::<char>::empty(), 0usize, 0usize, 0usize),
            ),
            m0.len() <= id ==> challenges_map@.len() <= id + 1,
            m0.len() > id ==> challenges_map@.len() == m0.len(),
        decreases id + 1 - challenges_map@.len(),
    {
        let ghost prev = cmap_view(challenges_map@);
        let blank = ChallengeMapEntry { name: String::new(), stage: 0, dim: 0, stage_id: 0 };
        proof {
            assert(blank.name@ =~= Seq::<char>::empty());
        }
        challenges_map.push(blank);
        proof {
            assert(cmap_view(challenges_map@) =~= prev.push((Seq::<char>::empty(), 0usize, 0usize, 0usize)));
            assert(cmap_view(challenges_map@) =~= m0 + Seq::new(
                (challenges_map@.len() - m0.len()) as nat,
                |i: int| (Seq::<char>::empty(), 0usize, 0usize, 0usize),
            ));
        }
    }
    let ghost mid = cmap_view(challenges_map@);
    proof {
        let ext = if m0.len() <= id { m0 + Seq::new((id + 1 - m0.len()) as nat, |i: int| (Seq::<char>::empty(), 0usize, 0usize, 0usize)) } else { m0 };
        assert(mid =~= ext);
    }
    challenges_map.set(id, ChallengeMapEntry { name: String::from_str(name), stage, dim, stage_id });
    proof {
        assert(cmap_view(challenges_map@) =~= mid.update(id as int, (name@, stage, dim, stage_id)));
    }
}

/// Builds the FRI polynomial and appends it to the arena: the challenges
/// `std_vf1` and `std_vf2` of stage `n_stages + 3` are added to the symbols
/// and the challenges map; for each opening point (in order, each once) the
/// items of `ev_map` opened there give `sum = sum * vf2 + (column - eval)`,
/// and the openings give `fri = vf1 * fri + sum * xDivXSubXi`. The two
/// challenges are appended to the arena as entries of their own, then the
/// polynomial, with its dimension and stage `n_stages + 2`; its index is
/// returned, so it is always above zero.
pub fn generate_fri_polynomial(
    n_stages: usize,
    expressions: &mut Vec<Expression>,
    symbols: &mut Vec<SymbolInfo>,
    ev_map: &[EvMapItem],
    opening_points: &[i64],
    challenges_map: &mut Vec<ChallengeMapEntry>,
) -> (res: FriPolyResult)
    requires
        n_stages + 3 <= usize::MAX,
        old(symbols)@.len() < usize::MAX,
        arena_wf(arena_view(old(expressions)@)),
        ev_resolvable(old(symbols)@, ev_map@),
        exists|i: int, k: int| 0 <= i < ev_map@.len() && 0 <= k < opening_points@.len() && #[trigger] ev_map@[i].prime == #[trigger] opening_points@[k],
    ensures
        ({
            let o = arena_view(old(expressions)@);
            let n = arena_view(final(expressions)@);
            let stage = (n_stages + 3) as usize;
            let vf1_id = challenges_before(old(symbols)@, stage as int) as usize;
            let vf1 = vf_view("std_vf1"@, stage, 0, vf1_id);
            let vf2 = vf_view("std_vf2"@, stage, 1, (vf1_id + 1) as usize);
            let fri = fri_acc(ev_map@, old(symbols)@, opening_points@, vf1, vf2, opening_points@.len() as int).unwrap();
            &&& fri_acc(ev_map@, old(symbols)@, opening_points@, vf1, vf2, opening_points@.len() as int) is Some
            &&& res.fri_exp_id == o.len() + 2
            &&& n == o.push(vf1).push(vf2).push(ExprView { dim: dim_expr(o, canon_rank(o), fri, 0) as usize, stage: (n_stages + 2) as usize, ..fri })
            &&& arena_wf(n)
            &&& arena_known(o) ==> arena_known(n)
            &&& arena_gen(o) ==> arena_gen(n)
            &&& final(symbols)@.len() == old(symbols)@.len() + 2
            &&& final(symbols)@.subrange(0, old(symbols)@.len() as int) == old(symbols)@
            &&& is_vf_symbol(final(symbols)@[old(symbols)@.len() as int], "std_vf1"@, stage, 0, vf1_id)
            &&& is_vf_symbol(final(symbols)@[old(symbols)@.len() as int + 1], "std_vf2"@, stage, 1, (vf1_id + 1) as usize)
            &&& cmap_view(final(challenges_map)@) == extended(
                extended(cmap_view(old(challenges_map)@), vf1_id as int, ("std_vf1"@, stage, FIELD_EXTENSION, 0usize)),
                vf1_id + 1,
                ("std_vf2"@, stage, FIELD_EXTENSION, 1usize),
            )
        }),
{
    let ghost o = arena_view(expressions@);
    let ghost syms0 = symbols@;
    let stage = n_stages + 3;
    let vf1_id = count_challenges_before(symbols, stage);
    proof {
        lemma_challenges_bound(syms0, stage as int);
    }
    let vf2_id = vf1_id + 1;
    let mut s1 = SymbolInfo::default();
    s1.sym_type = SymType::Challenge;
    s1.name = String::from_str("std_vf1");
    s1.stage = Some(stage);
    s1.dim = FIELD_EXTENSION;
    s1.stage_id = Some(0);
    s1.id = Some(vf1_id);
    let mut s2 = SymbolInfo::default();
    s2.sym_type = SymType::Challenge;
    s2.name = String::from_str("std_vf2");
    s2.stage = Some(stage);
    s2.dim = FIELD_EXTENSION;
    s2.stage_id = Some(1);
    s2.id = Some(vf2_id);
    symbols.push(s1);
    symbols.push(s2);
    extend_challenges_map(challenges_map, vf1_id, "std_vf1", stage, FIELD_EXTENSION, 0);
    extend_challenges_map(challenges_map, vf2_id, "std_vf2", stage, FIELD_EXTENSION, 1);
    let vf1 = vf_node("std_vf1", stage, 0, vf1_id);
    let vf2 = vf_node("std_vf2", stage, 1, vf2_id);
    let ghost vf1v = vf1@;
    let ghost vf2v = vf2@;
    proof {
        lemma_leaf_ok(o, vf1v);
        lemma_leaf_ok(o, vf2v);
    }
    // the sums by opening point
    let mut accs: Vec<(i64, Expression)> = Vec::new();
    let n = ev_map.len();
    let mut i: usize = 0;
    proof {
        assert(accs_view(accs@) =~= Seq::<(i64, ExprView)>::empty());
    }
    while i < n
        invariant
            n == ev_map@.len(),
            i <= n,
            ev_resolvable(syms0, ev_map@),
            symbols@.len() == syms0.len() + 2,
            forall|k: int| 0 <= k < syms0.len() ==> symbols@[k] == syms0[k],
            vf2@ == vf2v,
            piece_ok(o, vf2v),
            keys_unique(accs_view(accs@)),
            forall|p: i64| #[trigger] acc_of(accs_view(accs@), p) == prime_acc(ev_map@, syms0, p, vf2v, i as int),
            forall|k: int| 0 <= k < accs@.len() ==> piece_ok(o, #[trigger] accs_view(accs@)[k].1),
        decreases n - i,
    {
        let it = ev_map[i];
        proof {
            assert(sym_from(syms0, ev_map@[i as int], 0) is Some);
            lemma_sym_from_extend(syms0, symbols@, it, 0);
            lemma_sym_from_range(syms0, it, 0);
        }
        let sidx = find_symbol(symbols, &it);
        proof {
            assert(symbols@[sidx as int] == syms0[sidx as int]);
        }
        let symbol = &symbols[sidx];
        let mut col = blank_node(it.entry_type);
        col.id = Some(it.id);
        col.row_offset = Some(0);
        col.stage = match symbol.stage {
            Some(x) => x,
            None => 0,
        };
        col.dim = symbol.dim;
        col.commit_id = symbol.commit_id;
        let mut ev_node = blank_node(ExprOp::Eval);
        ev_node.id = Some(i);
        ev_node.dim = FIELD_EXTENSION;
        proof {
            assert(col@ == col_view(it, ev_symbol(syms0, it)));
            assert(ev_node@ == eval_view(i));
            lemma_leaf_ok(o, col@);
            lemma_leaf_ok(o, ev_node@);
        }
        let sub = pair_node(ExprOp::Sub, col, ev_node);
        proof {
            lemma_pair_ok(o, ExprOp::Sub, col@, ev_node@);
        }
        let ghost before = accs_view(accs@);
        match find_key(&accs, it.prime) {
            Some(pos) => {
                let (_, existing) = accs.remove(pos);
                proof {
                    assert(before[pos as int].1 == existing@);
                    lemma_acc_at(before, pos as int);
                }
                let mul = pair_node(ExprOp::Mul, existing, vf2.deep_copy());
                let add = pair_node(ExprOp::Add, mul, sub);
                proof {
                    lemma_pair_ok(o, ExprOp::Mul, existing@, vf2v);
                    lemma_pair_ok(o, ExprOp::Add, mul@, sub@);
                }
                let ghost addv = add@;
                accs.insert(pos, (it.prime, add));
                proof {
                    assert(accs_view(accs@) =~= before.update(pos as int, (before[pos as int].0, addv)));
                    assert forall|p: i64| #[trigger] acc_of(accs_view(accs@), p) == prime_acc(ev_map@, syms0, p, vf2v, i + 1) by {
                        lemma_acc_update(before, pos as int, addv, p);
                    }
                    assert forall|k: int| 0 <= k < accs@.len() implies piece_ok(o, #[trigger] accs_view(accs@)[k].1) by {
                        if k != pos {
                            assert(accs_view(accs@)[k] == before[k]);
                        }
                    }
                }
            },
            None => {
                let ghost subv = sub@;
                accs.push((it.prime, sub));
                proof {
                    assert(accs_view(accs@) =~= before.push((it.prime, subv)));
                    assert forall|p: i64| #[trigger] acc_of(accs_view(accs@), p) == prime_acc(ev_map@, syms0, p, vf2v, i + 1) by {
                        lemma_acc_push(before, it.prime, subv, p);
                    }
                    assert forall|k: int| 0 <= k < accs@.len() implies piece_ok(o, #[trigger] accs_view(accs@)[k].1) by {
                        if k < before.len() {
                            assert(accs_view(accs@)[k] == before[k]);
                        }
                    }
                }
            },
        }
        i = i + 1;
    }
    // fold the openings
    let mut fri: Option<Expression> = None;
    let m = opening_points.len();
    let mut k: usize = 0;
    while k < m
        invariant
            m == opening_points@.len(),
            k <= m,
            n == ev_map@.len(),
            vf1@ == vf1v,
            piece_ok(o, vf1v),
            keys_unique(accs_view(accs@)),
            forall|p: i64| #[trigger] acc_of(accs_view(accs@), p) == if opening_points@.subrange(0, k as int).contains(p) {
                None
            } else {
                prime_acc(ev_map@, syms0, p, vf2v, n as int)
            },
            forall|t: int| 0 <= t < accs@.len() ==> piece_ok(o, #[trigger] accs_view(accs@)[t].1),
            match fri {
                Some(f) => fri_acc(ev_map@, syms0, opening_points@, vf1v, vf2v, k as int) == Some(f@) && piece_ok(o, f@),
                None => fri_acc(ev_map@, syms0, opening_points@, vf1v, vf2v, k as int) is None,
            },
        decreases m - k,
    {
        let opening = opening_points[k];
        let ghost before = accs_view(accs@);
        proof {
            assert(opening_points@.subrange(0, k as int + 1) =~= opening_points@.subrange(0, k as int).push(opening));
        }
        match find_key(&accs, opening) {
            None => {
                proof {
                    assert forall|p: i64| #[trigger] acc_of(accs_view(accs@), p) == if opening_points@.subrange(0, k + 1).contains(p) {
                        None
                    } else {
                        prime_acc(ev_map@, syms0, p, vf2v, n as int)
                    } by {
                        if p == opening {
                            assert(opening_points@.subrange(0, k + 1)[k as int] == p);
                        } else {
                            assert(opening_points@.subrange(0, k + 1).contains(p) == opening_points@.subrange(0, k as int).contains(p)) by {
                                if opening_points@.subrange(0, k + 1).contains(p) {
                                    let j = choose|j: int| 0 <= j < k + 1 && #[trigger] opening_points@.subrange(0, k + 1)[j] == p;
                                    assert(opening_points@.subrange(0, k as int)[j] == p);
                                }
                                if opening_points@.subrange(0, k as int).contains(p) {
                                    let j = choose|j: int| 0 <= j < k && #[trigger] opening_points@.subrange(0, k as int)[j] == p;
                                    assert(opening_points@.subrange(0, k + 1)[j] == p);
                                }
                            }
                        }
                    }
                }
            },
            Some(pos) => {
                let (_, sum) = accs.remove(pos);
                proof {
                    lemma_acc_at(before, pos as int);
                    assert(piece_ok(o, before[pos as int].1));
                    assert(before[pos as int].1 == sum@);
                }
                let mut xd = blank_node(ExprOp::XDivXSubXi);
                xd.opening = Some(opening);
                xd.id = Some(k);
                proof {
                    lemma_leaf_ok(o, xd@);
                }
                let mul = pair_node(ExprOp::Mul, sum, xd);
                proof {
                    lemma_pair_ok(o, ExprOp::Mul, sum@, xd@);
                }
                let next = match fri {
                    Some(prev) => {
                        let vm = pair_node(ExprOp::Mul, vf1.deep_copy(), prev);
                        proof {
                            lemma_pair_ok(o, ExprOp::Mul, vf1v, prev@);
                        }
                        let a = pair_node(ExprOp::Add, vm, mul);
                        proof {
                            lemma_pair_ok(o, ExprOp::Add, vm@, mul@);
                        }
                        a
                    },
                    None => mul,
                };
                proof {
                    assert(accs_view(accs@) =~= before.remove(pos as int));
                    assert forall|p: i64| #[trigger] acc_of(accs_view(accs@), p) == if opening_points@.subrange(0, k + 1).contains(p) {
                        None
                    } else {
                        prime_acc(ev_map@, syms0, p, vf2v, n as int)
                    } by {
                        lemma_acc_remove(before, pos as int, p);
                        if p == opening {
                            assert(opening_points@.subrange(0, k + 1)[k as int] == p);
                        } else {
                            assert(opening_points@.subrange(0, k + 1).contains(p) == opening_points@.subrange(0, k as int).contains(p)) by {
                                if opening_points@.subrange(0, k + 1).contains(p) {
                                    let j = choose|j: int| 0 <= j < k + 1 && #[trigger] opening_points@.subrange(0, k + 1)[j] == p;
                                    assert(opening_points@.subrange(0, k as int)[j] == p);
                                }
                                if opening_points@.subrange(0, k as int).contains(p) {
                                    let j = choose|j: int| 0 <= j < k && #[trigger] opening_points@.subrange(0, k as int)[j] == p;
                                    assert(opening_points@.subrange(0, k + 1)[j] == p);
                                }
                            }
                        }
                    }
                    assert forall|t: int| 0 <= t < accs@.len() implies piece_ok(o, #[trigger] accs_view(accs@)[t].1) by {
                        let t2 = if t < pos { t } else { t + 1 };
                        assert(accs_view(accs@)[t] == before[t2]);
                    }
                }
                fri = Some(next);
            },
        }
        k = k + 1;
    }
    proof {
        let i0 = choose|i: int, k: int| 0 <= i < ev_map@.len() && 0 <= k < opening_points@.len() && #[trigger] ev_map@[i].prime == #[trigger] opening_points@[k];
        let (ii, kk) = i0;
        lemma_prime_acc_some(ev_map@, syms0, opening_points@[kk], vf2v, ii, n as int);
        lemma_fri_some(ev_map@, syms0, opening_points@, vf1v, vf2v, kk, m as int);
    }
    let mut fri_final = match fri {
        Some(f) => f,
        None => {
            proof {
                assert(false);
            }
            blank_node(ExprOp::Number)
        },
    };
    let d = get_inline_dim(expressions, &fri_final);
    let ghost fv = fri_final@;
    fri_final.dim = d;
    fri_final.stage = n_stages + 2;
    proof {
        assert(fri_final@ == ExprView { dim: d, stage: (n_stages + 2) as usize, ..fv });
        lemma_node_pointwise(fv);
        lemma_node_pointwise(fri_final@);
        lemma_gen_pointwise(fv);
        lemma_gen_pointwise(fri_final@);
        lemma_node_pointwise(vf1v);
        lemma_node_pointwise(vf2v);
        lemma_gen_pointwise(vf1v);
        lemma_gen_pointwise(vf2v);
        assert forall|j: int| #[trigger] refers_to(fri_final@, j) implies 0 <= j < o.len() by {
            assert(refers_to(fv, j));
        }
        lemma_push_wf(o, vf1v);
        lemma_push_wf(o.push(vf1v), vf2v);
        lemma_push_wf(o.push(vf1v).push(vf2v), fri_final@);
    }
    // the two challenges stand in the arena too, ahead of the polynomial
    expressions.push(vf1);
    expressions.push(vf2);
    let fri_id = expressions.len();
    expressions.push(fri_final);
    proof {
        let nv = arena_view(expressions@);
        assert(nv =~= o.push(vf1v).push(vf2v).push(fri_final@));
        assert(symbols@.subrange(0, syms0.len() as int) =~= syms0);
        reveal_strlit("std_vf1");
        reveal_strlit("std_vf2");
    }
    FriPolyResult { fri_exp_id: fri_id }
}

proof fn lemma_challenges_bound(syms: Seq<SymbolInfo>, stage: int)
    ensures
        challenges_before(syms, stage) <= syms.len(),
    decreases syms.len(),
{
    if syms.len() > 0 {
        lemma_challenges_bound(syms.drop_last(), stage);
    }
}

} // verus!
