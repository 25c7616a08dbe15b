//! Printing an expression as text with the names of its columns, challenges
//! and values. The text of an `exp` entry of the arena is remembered on the
//! entry (its `line`) and reused.
use vstd::prelude::*;
use crate::codegen::id_or_zero;
use crate::expression::{
    arena_view, arena_wf, canon_rank, child_refers_to, exp_target, lemma_child_refs, lemma_child_shaped,
    lemma_children_view, op_name, ranked, refers_to, well_shaped, ChildView, ExprChild, ExprOp, ExprView, Expression,
};
use crate::helpers::{child_height, height, lemma_node_pointwise};
use crate::pilout_info::SymbolInfo;
use crate::text::{decimal, u64_to_decimal};

verus! {

/// The symbol maps used to name columns and values.
pub struct PrintCtx<'a> {
    pub cm_pols_map: &'a [SymbolInfo],
    pub const_pols_map: &'a [SymbolInfo],
    pub custom_commits_map: &'a [Vec<SymbolInfo>],
    pub publics_map: &'a [SymbolInfo],
    pub challenges_map: &'a [SymbolInfo],
    pub air_values_map: &'a [SymbolInfo],
    pub airgroup_values_map: &'a [SymbolInfo],
    pub proof_values_map: &'a [SymbolInfo],
}

/// The maps of a printing context, as sequences.
pub ghost struct PrintMaps {
    pub cm: Seq<SymbolInfo>,
    pub cnst: Seq<SymbolInfo>,
    pub custom: Seq<Seq<SymbolInfo>>,
    pub publics: Seq<SymbolInfo>,
    pub challenges: Seq<SymbolInfo>,
    pub air_values: Seq<SymbolInfo>,
    pub airgroup_values: Seq<SymbolInfo>,
    pub proof_values: Seq<SymbolInfo>,
}

/// The maps of `ctx`.
pub open spec fn print_maps(ctx: &PrintCtx) -> PrintMaps {
    PrintMaps {
        cm: ctx.cm_pols_map@,
        cnst: ctx.const_pols_map@,
        custom: ctx.custom_commits_map@.map_values(|v: Vec<SymbolInfo>| v@),
        publics: ctx.publics_map@,
        challenges: ctx.challenges_map@,
        air_values: ctx.air_values_map@,
        airgroup_values: ctx.airgroup_values_map@,
        proof_values: ctx.proof_values_map@,
    }
}

// ---------------------------------------------------------------------------
// Names
// ---------------------------------------------------------------------------

/// The name of entry `id` of `map`, or `<prefix>_<id>` when there is none.
pub open spec fn named(map: Seq<SymbolInfo>, id: usize, prefix: Seq<char>) -> Seq<char> {
    if id < map.len() {
        map[id as int].name@
    } else {
        prefix + "_"@ + decimal(id as nat)
    }
}

/// The symbol of column node `e` in the maps.
pub open spec fn col_symbol(m: PrintMaps, e: ExprView) -> Option<SymbolInfo> {
    let id = id_or_zero(e.id);
    if e.op == ExprOp::Const {
        if id < m.cnst.len() { Some(m.cnst[id as int]) } else { None }
    } else if e.op == ExprOp::Cm {
        if id < m.cm.len() { Some(m.cm[id as int]) } else { None }
    } else {
        let cid = id_or_zero(e.commit_id);
        if cid < m.custom.len() && id < m.custom[cid as int].len() { Some(m.custom[cid as int][id as int]) } else { None }
    }
}

/// `[l]` for each length.
pub open spec fn lengths_suffix(ls: Seq<usize>) -> Seq<char>
    decreases ls.len(),
{
    if ls.len() == 0 {
        Seq::empty()
    } else {
        lengths_suffix(ls.drop_last()) + "["@ + decimal(ls.last() as nat) + "]"@
    }
}

/// Number of intermediate-polynomial columns among the first `n` of `cm`.
pub open spec fn prior_im(cm: Seq<SymbolInfo>, n: int) -> nat
    decreases n,
{
    if n <= 0 || cm.len() == 0 {
        0
    } else if n > cm.len() {
        prior_im(cm, cm.len() as int)
    } else {
        prior_im(cm, n - 1) + if cm[n - 1].im_pol { 1nat } else { 0 }
    }
}

/// `name` with the row offset marked: `name'` (and the offset when above one)
/// for a later row, `'name` (with the distance before it when above one) for
/// an earlier one.
pub open spec fn offset_name(name: Seq<char>, ro: i64) -> Seq<char> {
    if ro > 0 {
        name + "'"@ + if ro > 1 { decimal(ro as nat) } else { Seq::empty() }
    } else if ro < 0 {
        let a = if ro == i64::MIN { ro as int } else { -ro };
        if a > 1 {
            decimal(a as nat) + "'"@ + name
        } else {
            "'"@ + name
        }
    } else {
        name
    }
}

/// The printed name of column node `e` described by symbol `s`.
pub open spec fn col_name(m: PrintMaps, e: ExprView, s: SymbolInfo) -> Seq<char> {
    let base = s.name@ + match s.lengths {
        Some(ls) => lengths_suffix(ls@),
        None => Seq::empty(),
    } + if s.im_pol { decimal(prior_im(m.cm, id_or_zero(e.id) as int)) } else { Seq::empty() };
    offset_name(base, match e.row_offset {
        Some(r) => r,
        None => 0,
    })
}

/// The symbol of column node `e` commits an intermediate polynomial whose
/// expression is entry `j`.
pub open spec fn col_expands(m: PrintMaps, e: ExprView, j: int) -> bool {
    &&& (e.op == ExprOp::Cm || e.op == ExprOp::Const || e.op == ExprOp::Custom)
    &&& col_symbol(m, e) matches Some(s)
    &&& s.im_pol
    &&& s.exp_id matches Some(x)
    &&& x as int == j
}

/// A column node of `e` (inline descendants included) expands to entry `j`.
pub open spec fn tree_expands(m: PrintMaps, e: ExprView, j: int) -> bool
    decreases e, e.values.len() + 1,
{
    col_expands(m, e, j) || children_expand(m, e, e.values.len() as int, j)
}

/// A column node among the first `k` children of `e` expands to entry `j`.
pub open spec fn children_expand(m: PrintMaps, e: ExprView, k: int, j: int) -> bool
    decreases e, k,
{
    if k <= 0 || k > e.values.len() {
        false
    } else {
        (match e.values[k - 1] {
            ChildView::Id(_) => false,
            ChildView::Inline(b) => tree_expands(m, *b, j),
        }) || children_expand(m, e, k - 1, j)
    }
}

proof fn lemma_child_expands(m: PrintMaps, e: ExprView, k: int, n: int, j: int)
    requires
        0 <= k < n <= e.values.len(),
        e.values[k] matches ChildView::Inline(b) && tree_expands(m, *b, j),
    ensures
        children_expand(m, e, n, j),
    decreases n,
{
    if k < n - 1 {
        lemma_child_expands(m, e, k, n - 1, j);
    }
}

/// `rank` orders the arena so that references and, when columns are
/// expanded, column expansions lead to entries of smaller rank.
pub open spec fn print_ranked(m: PrintMaps, av: Seq<ExprView>, rank: Seq<nat>, expand: bool) -> bool {
    &&& ranked(av, rank)
    &&& forall|i: int| 0 <= i < av.len() ==> #[trigger] well_shaped(av[i])
    &&& expand ==> forall|i: int, j: int|
        0 <= i < av.len() && #[trigger] tree_expands(m, av[i], j) ==> 0 <= j < av.len() && rank[j] < rank[i]
}

// ---------------------------------------------------------------------------
// What printing gives
// ---------------------------------------------------------------------------

/// `e` with the line `l` remembered.
pub open spec fn with_line(e: ExprView, l: Seq<char>) -> ExprView {
    ExprView { line: Some(l), ..e }
}

/// `(l op r)` for an arithmetic operation.
pub open spec fn bin_text(op: ExprOp, l: Seq<char>, r: Seq<char>) -> Seq<char> {
    "("@ + l + (if op == ExprOp::Add {
        " + "@
    } else if op == ExprOp::Sub {
        " - "@
    } else {
        " * "@
    }) + r + ")"@
}

/// The text of a value node (challenge, public, air or airgroup value, proof
/// value, `Zi`), or `None` for other kinds.
pub open spec fn value_text(m: PrintMaps, e: ExprView) -> Option<Seq<char>> {
    let id = id_or_zero(e.id);
    match e.op {
        ExprOp::Public => Some(named(m.publics, id, "public"@)),
        ExprOp::Airvalue => Some(named(m.air_values, id, "airvalue"@)),
        ExprOp::Airgroupvalue => Some(named(m.airgroup_values, id, "airgroupvalue"@)),
        ExprOp::Challenge => Some(named(m.challenges, id, "challenge"@)),
        ExprOp::Proofvalue => Some(named(m.proof_values, id, "proofvalue"@)),
        ExprOp::Zi => Some("zh"@),
        _ => None,
    }
}

/// The text of a `number` node.
pub open spec fn number_text(e: ExprView) -> Seq<char> {
    match e.value {
        Some(v) => v,
        None => "0"@,
    }
}

/// Printing arena entry `idx` (of rank below `bound`): the text and the
/// arena with the lines it remembers.
pub open spec fn pe(m: PrintMaps, av: Seq<ExprView>, idx: int, cons: bool, rank: Seq<nat>, bound: nat) -> (Seq<char>, Seq<ExprView>)
    decreases bound, 0nat,
{
    if !(0 <= idx < av.len() && rank.len() == av.len() && rank[idx] < bound) {
        (Seq::empty(), av)
    } else {
        let e = av[idx];
        let b = rank[idx];
        match e.op {
            ExprOp::Exp => match e.line {
                Some(l) => (l, av),
                None => {
                    let (s, av1) = pe(m, av, exp_target(e), cons, rank, b);
                    (s, av1.update(idx, with_line(av1[idx], s)))
                },
            },
            ExprOp::Add | ExprOp::Sub | ExprOp::Mul => {
                let (l, av1) = pchild(m, av, e.values[0], cons, rank, b);
                let (r, av2) = pchild(m, av1, e.values[1], cons, rank, b);
                (bin_text(e.op, l, r), av2)
            },
            ExprOp::Neg => pchild(m, av, e.values[0], cons, rank, b),
            ExprOp::Number => (number_text(e), av),
            ExprOp::Cm | ExprOp::Const | ExprOp::Custom => pcol(m, av, e, cons, rank, b),
            _ => match value_text(m, e) {
                Some(t) => (t, av),
                None => ("unknown_op_"@ + op_name(e.op), av),
            },
        }
    }
}

/// Printing a child, at rank bound `b`.
pub open spec fn pchild(m: PrintMaps, av: Seq<ExprView>, c: ChildView, cons: bool, rank: Seq<nat>, b: nat) -> (Seq<char>, Seq<ExprView>)
    decreases b, 2 * child_height(c) + 1,
{
    match c {
        ChildView::Id(j) => pe(m, av, j as int, cons, rank, b),
        ChildView::Inline(x) => pi(m, av, *x, cons, rank, b),
    }
}

/// Printing a node outside the arena, at rank bound `bound`.
pub open spec fn pi(m: PrintMaps, av: Seq<ExprView>, e: ExprView, cons: bool, rank: Seq<nat>, bound: nat) -> (Seq<char>, Seq<ExprView>)
    decreases bound, 2 * height(e),
{
    match e.op {
        ExprOp::Exp => pe(m, av, exp_target(e), cons, rank, bound),
        ExprOp::Add | ExprOp::Sub | ExprOp::Mul => {
            if e.values.len() >= 2 {
                proof {
                    lemma_node_pointwise(e);
                }
                let (l, av1) = pchild(m, av, e.values[0], cons, rank, bound);
                let (r, av2) = pchild(m, av1, e.values[1], cons, rank, bound);
                (bin_text(e.op, l, r), av2)
            } else {
                (Seq::empty(), av)
            }
        },
        ExprOp::Neg => if e.values.len() >= 1 {
            proof {
                lemma_node_pointwise(e);
            }
            pchild(m, av, e.values[0], cons, rank, bound)
        } else {
            (Seq::empty(), av)
        },
        ExprOp::Number => (number_text(e), av),
        ExprOp::Cm | ExprOp::Const | ExprOp::Custom => pcol(m, av, e, cons, rank, bound),
        _ => match value_text(m, e) {
            Some(t) => (t, av),
            None => ("unknown_"@ + op_name(e.op), av),
        },
    }
}

/// Printing column node `e`: its name, or, outside a constraint, the
/// expression of the intermediate polynomial it commits.
pub open spec fn pcol(m: PrintMaps, av: Seq<ExprView>, e: ExprView, cons: bool, rank: Seq<nat>, bound: nat) -> (Seq<char>, Seq<ExprView>)
    decreases bound, 1nat,
{
    match col_symbol(m, e) {
        None => (op_name(e.op) + "_"@ + decimal(id_or_zero(e.id) as nat), av),
        Some(s) => if s.im_pol && !cons && s.exp_id is Some {
            pe(m, av, s.exp_id.unwrap() as int, false, rank, bound)
        } else {
            (col_name(m, e, s), av)
        },
    }
}

/// Only remembered lines differ between the two arenas.
pub open spec fn same_but_lines(a: Seq<ExprView>, b: Seq<ExprView>) -> bool {
    &&& a.len() == b.len()
    &&& forall|i: int| 0 <= i < a.len() ==> #[trigger] b[i] == with_line_of(a[i], b[i])
}

/// `a` with the line of `b`.
pub open spec fn with_line_of(a: ExprView, b: ExprView) -> ExprView {
    ExprView { line: b.line, ..a }
}

pub(crate) proof fn lemma_same_trans(a: Seq<ExprView>, b: Seq<ExprView>, c: Seq<ExprView>)
    requires
        same_but_lines(a, b),
        same_but_lines(b, c),
    ensures
        same_but_lines(a, c),
{
    assert forall|i: int| 0 <= i < a.len() implies #[trigger] c[i] == with_line_of(a[i], c[i]) by {
        assert(b[i] == with_line_of(a[i], b[i]));
        assert(c[i] == with_line_of(b[i], c[i]));
    }
}

/// Entries that differ only in their line have the same references,
/// shape and expansions.
proof fn lemma_same_node(m: PrintMaps, a: ExprView, b: ExprView)
    requires
        b == with_line_of(a, b),
    ensures
        forall|j: int| refers_to(a, j) == refers_to(b, j),
        forall|j: int| tree_expands(m, a, j) == tree_expands(m, b, j),
        well_shaped(a) == well_shaped(b),
{
    lemma_node_pointwise(a);
    lemma_node_pointwise(b);
    assert forall|j: int| tree_expands(m, a, j) == tree_expands(m, b, j) by {
        lemma_same_children_expand(m, a, b, a.values.len() as int, j);
    }
}

proof fn lemma_same_children_expand(m: PrintMaps, a: ExprView, b: ExprView, n: int, j: int)
    requires
        a.values == b.values,
        0 <= n <= a.values.len(),
    ensures
        children_expand(m, a, n, j) == children_expand(m, b, n, j),
    decreases n,
{
    if n > 0 {
        lemma_same_children_expand(m, a, b, n - 1, j);
    }
}

/// Printing keeps the arena's structure.
proof fn lemma_same_ranked(m: PrintMaps, a: Seq<ExprView>, b: Seq<ExprView>, rank: Seq<nat>, expand: bool)
    requires
        print_ranked(m, a, rank, expand),
        same_but_lines(a, b),
    ensures
        print_ranked(m, b, rank, expand),
{
    assert forall|i: int| 0 <= i < b.len() implies #[trigger] well_shaped(b[i]) by {
        assert(b[i] == with_line_of(a[i], b[i]));
        lemma_same_node(m, a[i], b[i]);
        assert(well_shaped(a[i]));
    }
    assert forall|i: int, j: int| 0 <= i < b.len() && #[trigger] refers_to(b[i], j) implies 0 <= j < b.len() && rank[j] < rank[i] by {
        assert(b[i] == with_line_of(a[i], b[i]));
        lemma_same_node(m, a[i], b[i]);
        assert(refers_to(a[i], j));
    }
    if expand {
        assert forall|i: int, j: int| 0 <= i < b.len() && #[trigger] tree_expands(m, b[i], j) implies 0 <= j < b.len() && rank[j] < rank[i] by {
            assert(b[i] == with_line_of(a[i], b[i]));
            lemma_same_node(m, a[i], b[i]);
            assert(tree_expands(m, a[i], j));
        }
    }
}


// ---------------------------------------------------------------------------
// Printing
// ---------------------------------------------------------------------------

fn named_text(map: &[SymbolInfo], id: usize, prefix: &str) -> (s: String)
    ensures
        s@ == named(map@, id, prefix@),
{
    if id < map.len() {
        map[id].name.clone()
    } else {
        let mut s = String::from_str(prefix);
        s.append("_");
        let d = u64_to_decimal(id as u64);
        s.append(d.as_str());
        s
    }
}

fn value_text_of(ctx: &PrintCtx, e: &Expression) -> (r: Option<String>)
    ensures
        match r {
            Some(t) => value_text(print_maps(ctx), e@) == Some(t@),
            None => value_text(print_maps(ctx), e@) is None,
        },
{
    let id = match e.id {
        Some(x) => x,
        None => 0,
    };
    match e.op {
        ExprOp::Public => Some(named_text(ctx.publics_map, id, "public")),
        ExprOp::Airvalue => Some(named_text(ctx.air_values_map, id, "airvalue")),
        ExprOp::Airgroupvalue => Some(named_text(ctx.airgroup_values_map, id, "airgroupvalue")),
        ExprOp::Challenge => Some(named_text(ctx.challenges_map, id, "challenge")),
        ExprOp::Proofvalue => Some(named_text(ctx.proof_values_map, id, "proofvalue")),
        ExprOp::Zi => Some(String::from_str("zh")),
        _ => None,
    }
}

fn number_text_of(e: &Expression) -> (s: String)
    ensures
        s@ == number_text(e@),
{
    match &e.value {
        Some(v) => v.clone(),
        None => String::from_str("0"),
    }
}

fn find_col<'a>(ctx: &PrintCtx<'a>, e: &Expression) -> (r: Option<&'a SymbolInfo>)
    ensures
        match r {
            Some(s) => col_symbol(print_maps(ctx), e@) == Some(*s),
            None => col_symbol(print_maps(ctx), e@) is None,
        },
{
    let id = match e.id {
        Some(x) => x,
        None => 0,
    };
    match e.op {
        ExprOp::Const => if id < ctx.const_pols_map.len() {
            Some(&ctx.const_pols_map[id])
        } else {
            None
        },
        ExprOp::Cm => if id < ctx.cm_pols_map.len() {
            Some(&ctx.cm_pols_map[id])
        } else {
            None
        },
        _ => {
            let cid = match e.commit_id {
                Some(x) => x,
                None => 0,
            };
            if cid < ctx.custom_commits_map.len() && id < ctx.custom_commits_map[cid].len() {
                Some(&ctx.custom_commits_map[cid][id])
            } else {
                None
            }
        },
    }
}

fn count_prior_im(cm: &[SymbolInfo], n: usize) -> (c: usize)
    ensures
        c == prior_im(cm@, n as int),
{
    let m = if n < cm.len() { n } else { cm.len() };
    let mut c: usize = 0;
    let mut i: usize = 0;
    proof {
        if n > cm@.len() && cm@.len() > 0 {
            assert(prior_im(cm@, n as int) == prior_im(cm@, cm@.len() as int));
        }
    }
    while i < m
        invariant
            m <= cm@.len(),
            m == if n < cm@.len() { n as int } else { cm@.len() as int },
            i <= m,
            c <= i,
            c == prior_im(cm@, i as int),
        decreases m - i,
    {
        if cm[i].im_pol {
            c = c + 1;
        }
        i = i + 1;
    }
    c
}

fn col_name_text(ctx: &PrintCtx, e: &Expression, s: &SymbolInfo) -> (r: String)
    ensures
        r@ == col_name(print_maps(ctx), e@, *s),
{
    let mut name = s.name.clone();
    let ghost n0 = name@;
    match &s.lengths {
        Some(ls) => {
            let mut k: usize = 0;
            while k < ls.len()
                invariant
                    k <= ls@.len(),
                    name@ == n0 + lengths_suffix(ls@.subrange(0, k as int)),
                decreases ls.len() - k,
            {
                proof {
                    assert(ls@.subrange(0, k as int + 1).drop_last() =~= ls@.subrange(0, k as int));
                }
                name.append("[");
                let d = u64_to_decimal(ls[k] as u64);
                name.append(d.as_str());
                name.append("]");
                k = k + 1;
            }
            proof {
                assert(ls@.subrange(0, ls@.len() as int) =~= ls@);
            }
        },
        None => {
            proof {
                assert(name@ =~= n0 + Seq::<char>::empty());
            }
        },
    }
    let id = match e.id {
        Some(x) => x,
        None => 0,
    };
    let ghost n1 = name@;
    if s.im_pol {
        let c = count_prior_im(ctx.cm_pols_map, id);
        let d = u64_to_decimal(c as u64);
        name.append(d.as_str());
    } else {
        proof {
            assert(name@ =~= n1 + Seq::<char>::empty());
        }
    }
    let ro = match e.row_offset {
        Some(r) => r,
        None => 0,
    };
    if ro > 0 {
        name.append("'");
        if ro > 1 {
            let d = u64_to_decimal(ro as u64);
            name.append(d.as_str());
        } else {
            proof {
                assert(name@ =~= name@ + Seq::<char>::empty());
            }
        }
        name
    } else if ro < 0 {
        if ro != i64::MIN && ro < -1 {
            let a: u64 = (0i128 - ro as i128) as u64;
            let mut out = u64_to_decimal(a);
            out.append("'");
            out.append(name.as_str());
            out
        } else {
            let mut out = String::from_str("'");
            out.append(name.as_str());
            out
        }
    } else {
        name
    }
}

fn print_entry(
    ctx: &PrintCtx,
    expressions: &mut Vec<Expression>,
    idx: usize,
    cons: bool,
    Ghost(rank): Ghost<Seq<nat>>,
    Ghost(bound): Ghost<nat>,
) -> (s: String)
    requires
        print_ranked(print_maps(ctx), arena_view(old(expressions)@), rank, !cons),
        idx < old(expressions)@.len(),
        rank[idx as int] < bound,
    ensures
        (s@, arena_view(final(expressions)@)) == pe(print_maps(ctx), arena_view(old(expressions)@), idx as int, cons, rank, bound),
        same_but_lines(arena_view(old(expressions)@), arena_view(final(expressions)@)),
    decreases bound, 0nat,
{
    let ghost m = print_maps(ctx);
    let ghost av = arena_view(expressions@);
    let e = expressions[idx].deep_copy();
    let ghost b = rank[idx as int];
    proof {
        assert(av[idx as int] == e@);
        lemma_children_view(e.values@);
        lemma_node_pointwise(e@);
        assert(well_shaped(av[idx as int]));
    }
    match e.op {
        ExprOp::Exp => {
            match &e.line {
                Some(l) => l.clone(),
                None => {
                    let t = match e.id {
                        Some(x) => x,
                        None => 0,
                    };
                    proof {
                        assert(refers_to(av[idx as int], t as int));
                    }
                    let s = print_entry(ctx, expressions, t, cons, Ghost(rank), Ghost(b));
                    let ghost av1 = arena_view(expressions@);
                    let mut en = expressions[idx].deep_copy();
                    en.line = Some(s.clone());
                    proof {
                        assert(av1[idx as int] == expressions@[idx as int]@);
                    }
                    expressions.set(idx, en);
                    proof {
                        let av2 = arena_view(expressions@);
                        assert(av2 =~= av1.update(idx as int, with_line(av1[idx as int], s@)));
                        assert(same_but_lines(av1, av2)) by {
                            assert forall|i: int| 0 <= i < av1.len() implies #[trigger] av2[i] == with_line_of(av1[i], av2[i]) by {}
                        }
                        lemma_same_trans(av, av1, av2);
                    }
                    s
                },
            }
        },
        ExprOp::Add | ExprOp::Sub | ExprOp::Mul => {
            let c0 = e.values[0].deep_copy();
            let c1 = e.values[1].deep_copy();
            proof {
                lemma_child_ok(m, av, idx as int, 0, rank, !cons);
                lemma_child_ok(m, av, idx as int, 1, rank, !cons);
            }
            let l = print_child(ctx, expressions, &c0, cons, Ghost(rank), Ghost(b));
            let ghost av1 = arena_view(expressions@);
            proof {
                lemma_same_ranked(m, av, av1, rank, !cons);
            }
            let r = print_child(ctx, expressions, &c1, cons, Ghost(rank), Ghost(b));
            proof {
                lemma_same_trans(av, av1, arena_view(expressions@));
            }
            let mut out = String::from_str("(");
            out.append(l.as_str());
            match e.op {
                ExprOp::Add => out.append(" + "),
                ExprOp::Sub => out.append(" - "),
                _ => out.append(" * "),
            }
            out.append(r.as_str());
            out.append(")");
            out
        },
        ExprOp::Neg => {
            let c0 = e.values[0].deep_copy();
            proof {
                lemma_child_ok(m, av, idx as int, 0, rank, !cons);
            }
            print_child(ctx, expressions, &c0, cons, Ghost(rank), Ghost(b))
        },
        ExprOp::Number => number_text_of(&e),
        ExprOp::Cm | ExprOp::Const | ExprOp::Custom => {
            proof {
                assert forall|j: int| !cons && #[trigger] col_expands(m, e@, j) implies 0 <= j < av.len() && rank[j] < b by {
                    assert(tree_expands(m, av[idx as int], j));
                }
            }
            print_col(ctx, expressions, &e, cons, Ghost(rank), Ghost(b))
        },
        _ => {
            match value_text_of(ctx, &e) {
                Some(t) => t,
                None => {
                    let mut out = String::from_str("unknown_op_");
                    out.append(e.op.as_str());
                    out
                },
            }
        },
    }
}

/// What printing a child needs: its references and expansions stay below
/// `b`, and it is well shaped.
pub open spec fn child_ready(m: PrintMaps, av: Seq<ExprView>, c: ChildView, rank: Seq<nat>, b: nat, expand: bool) -> bool {
    match c {
        ChildView::Id(j) => j < av.len() && rank[j as int] < b,
        ChildView::Inline(x) => inline_ready(m, av, *x, rank, b, expand),
    }
}

/// What printing a node outside the arena needs.
pub open spec fn inline_ready(m: PrintMaps, av: Seq<ExprView>, x: ExprView, rank: Seq<nat>, b: nat, expand: bool) -> bool {
    &&& well_shaped(x)
    &&& forall|j: int| #[trigger] refers_to(x, j) ==> 0 <= j < av.len() && rank[j] < b
    &&& expand ==> forall|j: int| #[trigger] tree_expands(m, x, j) ==> 0 <= j < av.len() && rank[j] < b
}

proof fn lemma_child_ok(m: PrintMaps, av: Seq<ExprView>, i: int, k: int, rank: Seq<nat>, expand: bool)
    requires
        print_ranked(m, av, rank, expand),
        0 <= i < av.len(),
        0 <= k < av[i].values.len(),
    ensures
        child_ready(m, av, av[i].values[k], rank, rank[i], expand),
{
    let e = av[i];
    assert(well_shaped(e));
    lemma_child_shaped(e, k);
    match e.values[k] {
        ChildView::Id(j) => {
            assert(child_refers_to(e.values[k], j as int));
            lemma_child_refs(e, k, j as int);
        },
        ChildView::Inline(x) => {
            assert forall|j: int| #[trigger] refers_to(*x, j) implies 0 <= j < av.len() && rank[j] < rank[i] by {
                assert(child_refers_to(e.values[k], j));
                lemma_child_refs(e, k, j);
            }
            if expand {
                assert forall|j: int| #[trigger] tree_expands(m, *x, j) implies 0 <= j < av.len() && rank[j] < rank[i] by {
                    lemma_child_expands(m, e, k, e.values.len() as int, j);
                    assert(tree_expands(m, e, j));
                }
            }
        },
    }
}

proof fn lemma_inline_child_ok(m: PrintMaps, av: Seq<ExprView>, x: ExprView, k: int, rank: Seq<nat>, b: nat, expand: bool)
    requires
        inline_ready(m, av, x, rank, b, expand),
        0 <= k < x.values.len(),
    ensures
        child_ready(m, av, x.values[k], rank, b, expand),
{
    lemma_child_shaped(x, k);
    match x.values[k] {
        ChildView::Id(j) => {
            assert(child_refers_to(x.values[k], j as int));
            lemma_child_refs(x, k, j as int);
        },
        ChildView::Inline(y) => {
            assert forall|j: int| #[trigger] refers_to(*y, j) implies 0 <= j < av.len() && rank[j] < b by {
                assert(child_refers_to(x.values[k], j));
                lemma_child_refs(x, k, j);
            }
            if expand {
                assert forall|j: int| #[trigger] tree_expands(m, *y, j) implies 0 <= j < av.len() && rank[j] < b by {
                    lemma_child_expands(m, x, k, x.values.len() as int, j);
                    assert(tree_expands(m, x, j));
                }
            }
        },
    }
}

proof fn lemma_ready_same(m: PrintMaps, a: Seq<ExprView>, b2: Seq<ExprView>, c: ChildView, rank: Seq<nat>, b: nat, expand: bool)
    requires
        child_ready(m, a, c, rank, b, expand),
        a.len() == b2.len(),
    ensures
        child_ready(m, b2, c, rank, b, expand),
{
}

fn print_child(
    ctx: &PrintCtx,
    expressions: &mut Vec<Expression>,
    c: &ExprChild,
    cons: bool,
    Ghost(rank): Ghost<Seq<nat>>,
    Ghost(b): Ghost<nat>,
) -> (s: String)
    requires
        print_ranked(print_maps(ctx), arena_view(old(expressions)@), rank, !cons),
        child_ready(print_maps(ctx), arena_view(old(expressions)@), c@, rank, b, !cons),
    ensures
        (s@, arena_view(final(expressions)@)) == pchild(print_maps(ctx), arena_view(old(expressions)@), c@, cons, rank, b),
        same_but_lines(arena_view(old(expressions)@), arena_view(final(expressions)@)),
    decreases b, 2 * child_height(c@) + 1,
{
    match c {
        ExprChild::Id(j) => print_entry(ctx, expressions, *j, cons, Ghost(rank), Ghost(b)),
        ExprChild::Inline(x) => print_inline(ctx, expressions, &**x, cons, Ghost(rank), Ghost(b)),
    }
}

fn print_inline(
    ctx: &PrintCtx,
    expressions: &mut Vec<Expression>,
    e: &Expression,
    cons: bool,
    Ghost(rank): Ghost<Seq<nat>>,
    Ghost(bound): Ghost<nat>,
) -> (s: String)
    requires
        print_ranked(print_maps(ctx), arena_view(old(expressions)@), rank, !cons),
        inline_ready(print_maps(ctx), arena_view(old(expressions)@), e@, rank, bound, !cons),
    ensures
        (s@, arena_view(final(expressions)@)) == pi(print_maps(ctx), arena_view(old(expressions)@), e@, cons, rank, bound),
        same_but_lines(arena_view(old(expressions)@), arena_view(final(expressions)@)),
    decreases bound, 2 * height(e@),
{
    let ghost m = print_maps(ctx);
    let ghost av = arena_view(expressions@);
    proof {
        lemma_children_view(e.values@);
        lemma_node_pointwise(e@);
    }
    match e.op {
        ExprOp::Exp => {
            let t = match e.id {
                Some(x) => x,
                None => 0,
            };
            proof {
                assert(refers_to(e@, t as int));
            }
            print_entry(ctx, expressions, t, cons, Ghost(rank), Ghost(bound))
        },
        ExprOp::Add | ExprOp::Sub | ExprOp::Mul => {
            proof {
                lemma_inline_child_ok(m, av, e@, 0, rank, bound, !cons);
                lemma_inline_child_ok(m, av, e@, 1, rank, bound, !cons);
                assert(e@.values[0] == e.values@[0]@);
                assert(e@.values[1] == e.values@[1]@);
            }
            let l = print_child(ctx, expressions, &e.values[0], cons, Ghost(rank), Ghost(bound));
            let ghost av1 = arena_view(expressions@);
            proof {
                lemma_same_ranked(m, av, av1, rank, !cons);
                lemma_ready_same(m, av, av1, e@.values[1], rank, bound, !cons);
            }
            let r = print_child(ctx, expressions, &e.values[1], cons, Ghost(rank), Ghost(bound));
            proof {
                lemma_same_trans(av, av1, arena_view(expressions@));
            }
            let mut out = String::from_str("(");
            out.append(l.as_str());
            match e.op {
                ExprOp::Add => out.append(" + "),
                ExprOp::Sub => out.append(" - "),
                _ => out.append(" * "),
            }
            out.append(r.as_str());
            out.append(")");
            out
        },
        ExprOp::Neg => {
            proof {
                lemma_inline_child_ok(m, av, e@, 0, rank, bound, !cons);
                assert(e@.values[0] == e.values@[0]@);
            }
            print_child(ctx, expressions, &e.values[0], cons, Ghost(rank), Ghost(bound))
        },
        ExprOp::Number => number_text_of(e),
        ExprOp::Cm | ExprOp::Const | ExprOp::Custom => {
            proof {
                assert forall|j: int| !cons && #[trigger] col_expands(m, e@, j) implies 0 <= j < av.len() && rank[j] < bound by {
                    assert(tree_expands(m, e@, j));
                }
            }
            print_col(ctx, expressions, e, cons, Ghost(rank), Ghost(bound))
        },
        _ => {
            match value_text_of(ctx, e) {
                Some(t) => t,
                None => {
                    let mut out = String::from_str("unknown_");
                    out.append(e.op.as_str());
                    out
                },
            }
        },
    }
}

fn print_col(
    ctx: &PrintCtx,
    expressions: &mut Vec<Expression>,
    e: &Expression,
    cons: bool,
    Ghost(rank): Ghost<Seq<nat>>,
    Ghost(bound): Ghost<nat>,
) -> (s: String)
    requires
        print_ranked(print_maps(ctx), arena_view(old(expressions)@), rank, !cons),
        e.op == ExprOp::Cm || e.op == ExprOp::Const || e.op == ExprOp::Custom,
        forall|j: int| !cons && #[trigger] col_expands(print_maps(ctx), e@, j) ==> 0 <= j < old(expressions)@.len() && rank[j] < bound,
    ensures
        (s@, arena_view(final(expressions)@)) == pcol(print_maps(ctx), arena_view(old(expressions)@), e@, cons, rank, bound),
        same_but_lines(arena_view(old(expressions)@), arena_view(final(expressions)@)),
    decreases bound, 1nat,
{
    match find_col(ctx, e) {
        None => {
            let mut out = String::from_str(e.op.as_str());
            out.append("_");
            let id = match e.id {
                Some(x) => x,
                None => 0,
            };
            let d = u64_to_decimal(id as u64);
            out.append(d.as_str());
            out
        },
        Some(s) => {
            if s.im_pol && !cons && s.exp_id.is_some() {
                let x = match s.exp_id {
                    Some(v) => v,
                    None => 0,
                };
                proof {
                    assert(col_expands(print_maps(ctx), e@, x as int));
                }
                print_entry(ctx, expressions, x, false, Ghost(rank), Ghost(bound))
            } else {
                col_name_text(ctx, e, s)
            }
        },
    }
}

/// Some ranking orders the arena for printing (with column expansions when
/// `expand`).
pub open spec fn print_ok(m: PrintMaps, av: Seq<ExprView>, expand: bool) -> bool {
    exists|rank: Seq<nat>| print_ranked(m, av, rank, expand)
}

/// The ranking printing follows.
pub open spec fn print_rank(m: PrintMaps, av: Seq<ExprView>, expand: bool) -> Seq<nat> {
    choose|rank: Seq<nat>| print_ranked(m, av, rank, expand)
}

/// Remembering lines keeps an arena printable.
pub proof fn lemma_print_ok_kept(m: PrintMaps, a: Seq<ExprView>, b: Seq<ExprView>, expand: bool)
    requires
        print_ok(m, a, expand),
        same_but_lines(a, b),
    ensures
        print_ok(m, b, expand),
{
    let r = choose|rank: Seq<nat>| print_ranked(m, a, rank, expand);
    lemma_same_ranked(m, a, b, r, expand);
}

/// Remembering lines keeps an arena well formed, known and generable.
pub proof fn lemma_lines_keep(a: Seq<ExprView>, b: Seq<ExprView>)
    requires
        same_but_lines(a, b),
    ensures
        arena_wf(a) ==> arena_wf(b),
        crate::helpers::arena_known(a) ==> crate::helpers::arena_known(b),
        crate::codegen::arena_gen(a) ==> crate::codegen::arena_gen(b),
{
    let m = arbitrary_maps();
    assert forall|i: int| 0 <= i < b.len() implies (well_shaped(b[i]) == well_shaped(a[i]))
        && (crate::helpers::tree_known(b[i]) == crate::helpers::tree_known(a[i]))
        && (crate::codegen::tree_gen(b[i]) == crate::codegen::tree_gen(a[i]))
        && (forall|j: int| #[trigger] refers_to(b[i], j) == refers_to(a[i], j)) by {
        assert(b[i] == with_line_of(a[i], b[i]));
        lemma_same_node(m, a[i], b[i]);
        lemma_node_pointwise(a[i]);
        lemma_node_pointwise(b[i]);
        crate::codegen::lemma_gen_pointwise(a[i]);
        crate::codegen::lemma_gen_pointwise(b[i]);
    }
    if arena_wf(a) {
        let r = canon_rank(a);
        assert(ranked(a, r));
        assert forall|i: int, j: int| 0 <= i < b.len() && #[trigger] refers_to(b[i], j) implies 0 <= j < b.len() && r[j] < r[i] by {
            assert(refers_to(a[i], j));
        }
        assert(ranked(b, r));
        assert forall|i: int| 0 <= i < b.len() implies #[trigger] well_shaped(b[i]) by {
            assert(well_shaped(a[i]));
        }
    }
    if crate::helpers::arena_known(a) {
        assert forall|i: int| 0 <= i < b.len() implies #[trigger] crate::helpers::tree_known(b[i]) by {
            assert(crate::helpers::tree_known(a[i]));
        }
    }
    if crate::codegen::arena_gen(a) {
        assert forall|i: int| 0 <= i < b.len() implies #[trigger] crate::codegen::tree_gen(b[i]) by {
            assert(crate::codegen::tree_gen(a[i]));
        }
    }
}

spec fn arbitrary_maps() -> PrintMaps {
    PrintMaps {
        cm: Seq::empty(),
        cnst: Seq::empty(),
        custom: Seq::empty(),
        publics: Seq::empty(),
        challenges: Seq::empty(),
        air_values: Seq::empty(),
        airgroup_values: Seq::empty(),
        proof_values: Seq::empty(),
    }
}

/// A well-formed arena can always be printed without column expansion.
pub proof fn lemma_print_ok_constraint(m: PrintMaps, av: Seq<ExprView>)
    requires
        arena_wf(av),
    ensures
        print_ok(m, av, false),
{
    let r = canon_rank(av);
    assert(ranked(av, r));
    assert(print_ranked(m, av, r, false));
}

/// Prints arena entry `exp_idx` (inside a constraint, columns of
/// intermediate polynomials are named, elsewhere their expressions are
/// printed) and remembers the text on the entry.
pub fn print_expression(ctx: &PrintCtx, expressions: &mut Vec<Expression>, exp_idx: usize, is_constraint: bool) -> (s: String)
    requires
        exp_idx < old(expressions)@.len(),
        print_ok(print_maps(ctx), arena_view(old(expressions)@), !is_constraint),
    ensures
        ({
            let m = print_maps(ctx);
            let av = arena_view(old(expressions)@);
            let rank = print_rank(m, av, !is_constraint);
            let (t, av1) = pe(m, av, exp_idx as int, is_constraint, rank, rank[exp_idx as int] + 1);
            &&& s@ == t
            &&& arena_view(final(expressions)@) == av1.update(exp_idx as int, with_line(av1[exp_idx as int], t))
        }),
        same_but_lines(arena_view(old(expressions)@), arena_view(final(expressions)@)),
{
    let ghost m = print_maps(ctx);
    let ghost av = arena_view(expressions@);
    let ghost rank = print_rank(m, av, !is_constraint);
    proof {
        assert(print_ranked(m, av, rank, !is_constraint));
    }
    let s = print_entry(ctx, expressions, exp_idx, is_constraint, Ghost(rank), Ghost(rank[exp_idx as int] + 1));
    let ghost av1 = arena_view(expressions@);
    let mut en = expressions[exp_idx].deep_copy();
    en.line = Some(s.clone());
    proof {
        assert(av1[exp_idx as int] == expressions@[exp_idx as int]@);
    }
    expressions.set(exp_idx, en);
    proof {
        let av2 = arena_view(expressions@);
        assert(av2 =~= av1.update(exp_idx as int, with_line(av1[exp_idx as int], s@)));
        assert(same_but_lines(av1, av2)) by {
            assert forall|i: int| 0 <= i < av1.len() implies #[trigger] av2[i] == with_line_of(av1[i], av2[i]) by {}
        }
        lemma_same_trans(av, av1, av2);
    }
    s
}

/// Prints arena entry `exp_idx` like `print_expression`, without remembering
/// the text on the entry itself.
pub fn print_expression_no_cache(ctx: &PrintCtx, expressions: &mut Vec<Expression>, exp_idx: usize, is_constraint: bool) -> (s: String)
    requires
        exp_idx < old(expressions)@.len(),
        print_ok(print_maps(ctx), arena_view(old(expressions)@), !is_constraint),
    ensures
        ({
            let m = print_maps(ctx);
            let av = arena_view(old(expressions)@);
            let rank = print_rank(m, av, !is_constraint);
            (s@, arena_view(final(expressions)@)) == pe(m, av, exp_idx as int, is_constraint, rank, rank[exp_idx as int] + 1)
        }),
        same_but_lines(arena_view(old(expressions)@), arena_view(final(expressions)@)),
{
    let ghost m = print_maps(ctx);
    let ghost av = arena_view(expressions@);
    let ghost rank = print_rank(m, av, !is_constraint);
    proof {
        assert(print_ranked(m, av, rank, !is_constraint));
    }
    print_entry(ctx, expressions, exp_idx, is_constraint, Ghost(rank), Ghost(rank[exp_idx as int] + 1))
}

} // verus!
