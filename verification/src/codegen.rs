//! Code generation for expressions: an expression is walked and turned into
//! a linear list of `add`/`sub`/`mul`/`copy` lines over temporaries,
//! columns and constants; references to other expressions are generated
//! first and remembered, and `build_code` finally turns the remaining
//! expression operands into temporaries.
use vstd::prelude::*;
use crate::expression::{
    arena_view, canon_rank, child_refers_to, exp_target, lemma_child_refs, lemma_children_view, ranked, refers_to,
    refs_below, arena_wf, ChildView, ExprChild, ExprOp, ExprView, Expression,
};
use crate::helpers::{child_height, height, is_arith, lemma_node_pointwise};
use crate::pilout_info::{SymbolInfo, FIELD_EXTENSION};
use crate::stark_info::CodeOp;
use crate::text::str_is;
use crate::types::{code_view, copy_refs, plain_ref, refs_view, CodeEntry, CodeRef, EntryView, RefType, RefView};

verus! {

/// Whether the expression `(id, prime)` was generated, and whether it stands
/// for a committed column.
#[derive(Debug, Clone, Copy, PartialEq, Eq, Structural)]
pub struct CalcEntry {
    pub cm: bool,
    pub tmp_id: Option<usize>,
}

/// A column opened at an opening point, in the evaluation map of the
/// verifier.
#[derive(Debug, Clone, Copy, PartialEq, Eq, Structural)]
pub struct EvMapRef {
    pub entry_type: RefType,
    pub id: usize,
    pub prime: i64,
    pub opening_pos: usize,
    pub commit_id: Option<usize>,
}

/// The state of a code generation.
#[derive(Debug)]
pub struct CodeGenCtx {
    pub air_id: usize,
    pub airgroup_id: usize,
    pub stage: usize,
    /// `"n"` for the base domain, `"ext"` for the extended one.
    pub dom: String,
    pub verifier_evaluations: bool,
    pub opening_points: Vec<i64>,
    pub ev_map: Vec<EvMapRef>,
    pub tmp_used: usize,
    pub code: Vec<CodeEntry>,
    /// `(expression id, prime, entry)` for every generated expression.
    pub calculated: Vec<(usize, i64, CalcEntry)>,
    /// `(prime, expression id, temporary)` while `build_code` runs.
    pub exp_map: Vec<(i64, usize, usize)>,
    /// `((expression id, air id, airgroup id), symbol index)` of the witness
    /// columns that commit an expression.
    pub witness_by_exp_id: Vec<((usize, usize, usize), usize)>,
}

impl CodeGenCtx {
    /// A fresh context.
    pub fn new(
        air_id: usize,
        airgroup_id: usize,
        stage: usize,
        dom: &str,
        verifier_evaluations: bool,
        opening_points: Vec<i64>,
        ev_map: Vec<EvMapRef>,
    ) -> (ctx: Self)
        ensures
            ctx.air_id == air_id,
            ctx.airgroup_id == airgroup_id,
            ctx.stage == stage,
            ctx.dom@ == dom@,
            ctx.verifier_evaluations == verifier_evaluations,
            ctx.opening_points@ == opening_points@,
            ctx.ev_map@ == ev_map@,
            ctx.tmp_used == 0,
            ctx.code@.len() == 0,
            ctx.calculated@.len() == 0,
            ctx.exp_map@.len() == 0,
            ctx.witness_by_exp_id@.len() == 0,
    {
        CodeGenCtx {
            air_id,
            airgroup_id,
            stage,
            dom: String::from_str(dom),
            verifier_evaluations,
            opening_points,
            ev_map,
            tmp_used: 0,
            code: Vec::new(),
            calculated: Vec::new(),
            exp_map: Vec::new(),
            witness_by_exp_id: Vec::new(),
        }
    }
}

// ---------------------------------------------------------------------------
// Lookups
// ---------------------------------------------------------------------------

/// The entry of the first `(id, prime)` of `c` from position `i` on.
pub open spec fn calc_from(c: Seq<(usize, i64, CalcEntry)>, id: usize, prime: i64, i: int) -> Option<CalcEntry>
    decreases c.len() - i,
{
    if i < 0 || i >= c.len() {
        None
    } else if c[i].0 == id && c[i].1 == prime {
        Some(c[i].2)
    } else {
        calc_from(c, id, prime, i + 1)
    }
}

/// The entry recorded for `(id, prime)`.
pub open spec fn calc_lookup(c: Seq<(usize, i64, CalcEntry)>, id: usize, prime: i64) -> Option<CalcEntry> {
    calc_from(c, id, prime, 0)
}

proof fn lemma_calc_push(c: Seq<(usize, i64, CalcEntry)>, x: (usize, i64, CalcEntry), id: usize, prime: i64, i: int)
    requires
        0 <= i <= c.len(),
    ensures
        calc_from(c.push(x), id, prime, i) == if calc_from(c, id, prime, i) is Some {
            calc_from(c, id, prime, i)
        } else if x.0 == id && x.1 == prime {
            Some(x.2)
        } else {
            None
        },
    decreases c.len() - i,
{
    if i < c.len() {
        assert(c.push(x)[i] == c[i]);
        lemma_calc_push(c, x, id, prime, i + 1);
    } else {
        assert(c.push(x)[i] == x);
        assert(calc_from(c.push(x), id, prime, i + 1) is None);
    }
}

proof fn lemma_calc_update(c: Seq<(usize, i64, CalcEntry)>, k: int, x: CalcEntry, id: usize, prime: i64, i: int)
    requires
        0 <= i <= c.len(),
        0 <= k < c.len(),
        forall|t: int| 0 <= t < k ==> !(c[t].0 == c[k].0 && c[t].1 == c[k].1),
    ensures
        calc_from(c.update(k, (c[k].0, c[k].1, x)), id, prime, i) == if i <= k && id == c[k].0 && prime == c[k].1 {
            Some(x)
        } else {
            calc_from(c, id, prime, i)
        },
    decreases c.len() - i,
{
    let n = c.update(k, (c[k].0, c[k].1, x));
    if i < c.len() {
        lemma_calc_update(c, k, x, id, prime, i + 1);
        if i < k && id == c[k].0 && prime == c[k].1 {
            assert(!(c[i].0 == id && c[i].1 == prime));
        }
    }
}

fn find_calc(c: &Vec<(usize, i64, CalcEntry)>, id: usize, prime: i64) -> (r: Option<CalcEntry>)
    ensures
        r == calc_lookup(c@, id, prime),
{
    let mut i: usize = 0;
    while i < c.len()
        invariant
            i <= c@.len(),
            calc_from(c@, id, prime, 0) == calc_from(c@, id, prime, i as int),
        decreases c.len() - i,
    {
        let (a, b, e) = c[i];
        if a == id && b == prime {
            return Some(e);
        }
        i = i + 1;
    }
    None
}

/// Index of the first `x` of `s` from position `i` on, or 0.
pub open spec fn pos_from(s: Seq<i64>, x: i64, i: int) -> int
    decreases s.len() - i,
{
    if i < 0 || i >= s.len() {
        0
    } else if s[i] == x {
        i
    } else {
        pos_from(s, x, i + 1)
    }
}

/// Index of the first `x` of `s`, or 0.
pub open spec fn pos_of(s: Seq<i64>, x: i64) -> int {
    pos_from(s, x, 0)
}

/// The position of `x` in `s`, or 0 when it does not occur.
pub fn position_of(s: &[i64], x: i64) -> (r: usize)
    ensures
        r == pos_of(s@, x),
{
    let mut i: usize = 0;
    while i < s.len()
        invariant
            i <= s@.len(),
            pos_from(s@, x, 0) == pos_from(s@, x, i as int),
        decreases s.len() - i,
    {
        if s[i] == x {
            return i;
        }
        i = i + 1;
    }
    0
}

/// Index of the first entry of `ev` for column `(t, id)` at opening `pos`,
/// from position `i` on.
pub open spec fn ev_from(ev: Seq<EvMapRef>, t: RefType, id: usize, pos: int, i: int) -> Option<int>
    decreases ev.len() - i,
{
    if i < 0 || i >= ev.len() {
        None
    } else if ev[i].entry_type == t && ev[i].id == id && ev[i].opening_pos == pos {
        Some(i)
    } else {
        ev_from(ev, t, id, pos, i + 1)
    }
}

proof fn lemma_ev_from_range(ev: Seq<EvMapRef>, t: RefType, id: usize, pos: int, i: int)
    requires
        0 <= i,
    ensures
        ev_from(ev, t, id, pos, i) matches Some(k) ==> i <= k < ev.len(),
    decreases ev.len() - i,
{
    if i < ev.len() {
        lemma_ev_from_range(ev, t, id, pos, i + 1);
    }
}

fn find_ev(ev: &Vec<EvMapRef>, t: RefType, id: usize, pos: usize) -> (r: Option<usize>)
    ensures
        match r {
            Some(k) => ev_from(ev@, t, id, pos as int, 0) == Some(k as int),
            None => ev_from(ev@, t, id, pos as int, 0) is None,
        },
{
    let mut i: usize = 0;
    while i < ev.len()
        invariant
            i <= ev@.len(),
            ev_from(ev@, t, id, pos as int, 0) == ev_from(ev@, t, id, pos as int, i as int),
        decreases ev.len() - i,
    {
        let e = ev[i];
        if e.entry_type == t && e.id == id && e.opening_pos == pos {
            return Some(i);
        }
        i = i + 1;
    }
    None
}

/// The symbol index recorded for `key`, looking from position `i` on.
pub open spec fn witness_from(w: Seq<((usize, usize, usize), usize)>, key: (usize, usize, usize), i: int) -> Option<usize>
    decreases w.len() - i,
{
    if i < 0 || i >= w.len() {
        None
    } else if w[i].0 == key {
        Some(w[i].1)
    } else {
        witness_from(w, key, i + 1)
    }
}

proof fn lemma_witness_in(w: Seq<((usize, usize, usize), usize)>, key: (usize, usize, usize), i: int, n: int)
    requires
        forall|k: int| 0 <= k < w.len() ==> (#[trigger] w[k]).1 < n,
    ensures
        witness_from(w, key, i) matches Some(s) ==> s < n,
    decreases w.len() - i,
{
    if 0 <= i < w.len() {
        lemma_witness_in(w, key, i + 1, n);
    }
}

fn find_witness(w: &Vec<((usize, usize, usize), usize)>, key: (usize, usize, usize)) -> (r: Option<usize>)
    ensures
        r == witness_from(w@, key, 0),
{
    let mut i: usize = 0;
    while i < w.len()
        invariant
            i <= w@.len(),
            witness_from(w@, key, 0) == witness_from(w@, key, i as int),
        decreases w.len() - i,
    {
        let (k, s) = w[i];
        if k.0 == key.0 && k.1 == key.1 && k.2 == key.2 {
            return Some(s);
        }
        i = i + 1;
    }
    None
}

// ---------------------------------------------------------------------------
// What the context keeps
// ---------------------------------------------------------------------------

/// The context is consistent with `n_symbols` symbols: every temporary was
/// counted with a line, and every recorded witness is a symbol.
pub open spec fn ctx_wf(ctx: CodeGenCtx, n_symbols: int) -> bool {
    &&& ctx.tmp_used <= ctx.code@.len()
    &&& forall|k: int| 0 <= k < ctx.witness_by_exp_id@.len() ==> (#[trigger] ctx.witness_by_exp_id@[k]).1 < n_symbols
}

/// The parts of the context that generation does not change.
pub open spec fn same_config(a: CodeGenCtx, b: CodeGenCtx) -> bool {
    &&& a.air_id == b.air_id
    &&& a.airgroup_id == b.airgroup_id
    &&& a.stage == b.stage
    &&& a.dom@ == b.dom@
    &&& a.verifier_evaluations == b.verifier_evaluations
    &&& a.opening_points@ == b.opening_points@
    &&& a.ev_map@ == b.ev_map@
    &&& a.witness_by_exp_id@ == b.witness_by_exp_id@
}

/// A destination that is a temporary or an expression.
pub open spec fn dest_plain(r: RefView) -> bool {
    r.ref_type == RefType::Tmp || r.ref_type == RefType::Exp
}

/// A step of generation: the configuration stays, lines are only appended
/// (and are arithmetic or copies), recorded expressions stay recorded as
/// they were, and newly recorded ones do not stand for committed columns.
pub open spec fn gen_grows(a: CodeGenCtx, b: CodeGenCtx) -> bool {
    &&& same_config(a, b)
    &&& b.code@.len() >= a.code@.len()
    &&& forall|k: int| 0 <= k < a.code@.len() ==> #[trigger] b.code@[k]@ == a.code@[k]@
    &&& forall|k: int| a.code@.len() <= k < b.code@.len() ==> (#[trigger] b.code@[k]).op != CodeOp::SubSwap
    &&& a.witness_by_exp_id@.len() == 0 ==> forall|k: int| a.code@.len() <= k < b.code@.len() ==> dest_plain(
        #[trigger] b.code@[k]@.dest,
    )
    &&& forall|id: usize, p: i64|
        #![trigger calc_lookup(b.calculated@, id, p)]
        calc_lookup(a.calculated@, id, p) is Some ==> calc_lookup(b.calculated@, id, p) == calc_lookup(a.calculated@, id, p)
    &&& forall|id: usize, p: i64|
        #![trigger calc_lookup(b.calculated@, id, p)]
        calc_lookup(a.calculated@, id, p) is None && calc_lookup(b.calculated@, id, p) is Some ==> !calc_lookup(
            b.calculated@,
            id,
            p,
        ).unwrap().cm
}

proof fn lemma_grows_trans(a: CodeGenCtx, b: CodeGenCtx, c: CodeGenCtx)
    requires
        gen_grows(a, b),
        gen_grows(b, c),
    ensures
        gen_grows(a, c),
{
    assert forall|k: int| 0 <= k < a.code@.len() implies #[trigger] c.code@[k]@ == a.code@[k]@ by {
        assert(b.code@[k]@ == a.code@[k]@);
        assert(c.code@[k]@ == b.code@[k]@);
    }
    assert forall|k: int| a.code@.len() <= k < c.code@.len() implies (#[trigger] c.code@[k]).op != CodeOp::SubSwap by {
        if k < b.code@.len() {
            assert(b.code@[k].op != CodeOp::SubSwap);
            assert(c.code@[k]@ == b.code@[k]@);
        }
    }
    if a.witness_by_exp_id@.len() == 0 {
        assert forall|k: int| a.code@.len() <= k < c.code@.len() implies dest_plain(#[trigger] c.code@[k]@.dest) by {
            if k < b.code@.len() {
                assert(dest_plain(b.code@[k]@.dest));
                assert(c.code@[k]@ == b.code@[k]@);
            }
        }
    }
    assert forall|id: usize, p: i64|
        #![trigger calc_lookup(c.calculated@, id, p)]
        calc_lookup(a.calculated@, id, p) is None && calc_lookup(c.calculated@, id, p) is Some implies !calc_lookup(
            c.calculated@,
            id,
            p,
        ).unwrap().cm by {
        if calc_lookup(b.calculated@, id, p) is Some {
            assert(calc_lookup(c.calculated@, id, p) == calc_lookup(b.calculated@, id, p));
        }
    }
    assert forall|id: usize, p: i64|
        #![trigger calc_lookup(c.calculated@, id, p)]
        calc_lookup(a.calculated@, id, p) is Some implies calc_lookup(c.calculated@, id, p) == calc_lookup(
            a.calculated@,
            id,
            p,
        ) by {
        assert(calc_lookup(b.calculated@, id, p) == calc_lookup(a.calculated@, id, p));
    }
}

// ---------------------------------------------------------------------------
// Operand rewriting
// ---------------------------------------------------------------------------

/// The operand `r` read from the evaluation map when its column is opened
/// there at `r`'s row offset.
pub open spec fn fix_eval_spec(ctx: CodeGenCtx, r: RefView) -> RefView {
    let prime = match r.prime {
        Some(p) => p,
        None => 0,
    };
    let pos = pos_of(ctx.opening_points@, prime);
    match ev_from(ctx.ev_map@, r.ref_type, r.id, pos, 0) {
        Some(i) => RefView { prime: None, id: i as usize, ref_type: RefType::Eval, dim: FIELD_EXTENSION, ..r },
        None => r,
    }
}

fn fix_eval(r: &mut CodeRef, ctx: &CodeGenCtx)
    ensures
        final(r)@ == fix_eval_spec(*ctx, old(r)@),
{
    let prime = match r.prime {
        Some(p) => p,
        None => 0,
    };
    let opening_pos = position_of(ctx.opening_points.as_slice(), prime);
    match find_ev(&ctx.ev_map, r.ref_type, r.id, opening_pos) {
        Some(idx) => {
            proof {
                lemma_ev_from_range(ctx.ev_map@, r.ref_type, r.id, opening_pos as int, 0);
            }
            r.prime = None;
            r.id = idx;
            r.ref_type = RefType::Eval;
            r.dim = FIELD_EXTENSION;
        },
        None => {},
    }
}

/// Whether the calculated entry of `(id, prime)` stands for a committed
/// column.
pub open spec fn calc_cm(ctx: CodeGenCtx, id: usize, prime: i64) -> bool {
    match calc_lookup(ctx.calculated@, id, prime) {
        Some(c) => c.cm,
        None => false,
    }
}

/// The operand `r` of an expression, read from the committed column of the
/// intermediate polynomial that stands for it where one may be used.
pub open spec fn fix_commit_spec(ctx: CodeGenCtx, symbols: Seq<SymbolInfo>, r: RefView) -> RefView {
    match witness_from(ctx.witness_by_exp_id@, (r.id, ctx.air_id, ctx.airgroup_id), 0) {
        None => r,
        Some(idx) => {
            let s = symbols[idx as int];
            let prime = match r.prime {
                Some(p) => p,
                None => 0,
            };
            let cm = calc_cm(ctx, r.id, prime);
            let st = match s.stage {
                Some(x) => x,
                None => 0,
            };
            let pid = match s.pol_id {
                Some(x) => x,
                None => 0,
            };
            let col = RefView { ref_type: RefType::Cm, id: pid, dim: s.dim, ..r };
            if s.im_pol && (ctx.dom@ == "ext"@ || (st <= ctx.stage && cm)) {
                if ctx.verifier_evaluations {
                    fix_eval_spec(ctx, col)
                } else {
                    col
                }
            } else if !ctx.verifier_evaluations && ctx.dom@ == "n"@ && cm {
                col
            } else {
                r
            }
        },
    }
}

fn fix_commit_pol(r: &mut CodeRef, ctx: &CodeGenCtx, symbols: &[SymbolInfo])
    requires
        ctx_wf(*ctx, symbols@.len() as int),
    ensures
        final(r)@ == fix_commit_spec(*ctx, symbols@, old(r)@),
{
    let key = (r.id, ctx.air_id, ctx.airgroup_id);
    proof {
        lemma_witness_in(ctx.witness_by_exp_id@, key, 0, symbols@.len() as int);
    }
    let idx = match find_witness(&ctx.witness_by_exp_id, key) {
        Some(i) => i,
        None => {
            return;
        },
    };
    let symbol = &symbols[idx];
    let r_prime = match r.prime {
        Some(p) => p,
        None => 0,
    };
    let cm = match find_calc(&ctx.calculated, r.id, r_prime) {
        Some(c) => c.cm,
        None => false,
    };
    let st = match symbol.stage {
        Some(x) => x,
        None => 0,
    };
    let pid = match symbol.pol_id {
        Some(x) => x,
        None => 0,
    };
    let ext = str_is(ctx.dom.as_str(), "ext");
    let base = str_is(ctx.dom.as_str(), "n");
    if symbol.im_pol && (ext || (st <= ctx.stage && cm)) {
        r.ref_type = RefType::Cm;
        r.id = pid;
        r.dim = symbol.dim;
        if ctx.verifier_evaluations {
            fix_eval(r, ctx);
        }
    } else if !ctx.verifier_evaluations && base && cm {
        r.ref_type = RefType::Cm;
        r.id = pid;
        r.dim = symbol.dim;
    }
}


// ---------------------------------------------------------------------------
// Expressions code generation handles
// ---------------------------------------------------------------------------

/// The operations code generation handles (`neg` must have been rewritten).
pub open spec fn gen_op(op: ExprOp) -> bool {
    op != ExprOp::Neg && op != ExprOp::X && op != ExprOp::StringVal
}

/// Every node of `e` (inline descendants included) has an operation code
/// generation handles.
pub open spec fn tree_gen(e: ExprView) -> bool
    decreases e, e.values.len() + 1,
{
    gen_op(e.op) && children_gen(e, e.values.len() as int)
}

/// The first `k` children of `e` are handled.
pub open spec fn children_gen(e: ExprView, k: int) -> bool
    decreases e, k,
{
    if k <= 0 || k > e.values.len() {
        true
    } else {
        (match e.values[k - 1] {
            ChildView::Id(_) => true,
            ChildView::Inline(b) => tree_gen(*b),
        }) && children_gen(e, k - 1)
    }
}

/// An inline child is handled; an `Id` child always is.
pub open spec fn child_gen(c: ChildView) -> bool {
    match c {
        ChildView::Id(_) => true,
        ChildView::Inline(b) => tree_gen(*b),
    }
}

/// Every entry of the arena is handled.
pub open spec fn arena_gen(av: Seq<ExprView>) -> bool {
    forall|i: int| 0 <= i < av.len() ==> #[trigger] tree_gen(av[i])
}

proof fn lemma_children_gen(e: ExprView, n: int)
    requires
        0 <= n <= e.values.len(),
    ensures
        children_gen(e, n) <==> forall|k: int| 0 <= k < n ==> #[trigger] child_gen(e.values[k]),
    decreases n,
{
    if n > 0 {
        lemma_children_gen(e, n - 1);
        assert(children_gen(e, n) == (child_gen(e.values[n - 1]) && children_gen(e, n - 1)));
    }
}

pub(crate) proof fn lemma_gen_pointwise(e: ExprView)
    ensures
        tree_gen(e) <==> gen_op(e.op) && forall|k: int| 0 <= k < e.values.len() ==> #[trigger] child_gen(e.values[k]),
{
    lemma_children_gen(e, e.values.len() as int);
}

/// A tree code generation handles is one whose operations the annotation
/// pass knows and that holds no negation.
pub proof fn lemma_gen_known_nn(e: ExprView)
    ensures
        tree_gen(e) == (crate::helpers::tree_known(e) && crate::helpers::tree_nn(e)),
    decreases e, e.values.len() + 1,
{
    lemma_gen_pointwise(e);
    lemma_node_pointwise(e);
    assert forall|k: int| 0 <= k < e.values.len() implies #[trigger] child_gen(e.values[k]) == (crate::helpers::child_known(
        e.values[k],
    ) && crate::helpers::child_nn(e.values[k])) by {
        match e.values[k] {
            ChildView::Id(_) => {},
            ChildView::Inline(b) => {
                lemma_gen_known_nn(*b);
            },
        }
    }
    if tree_gen(e) {
        assert forall|k: int| 0 <= k < e.values.len() implies #[trigger] crate::helpers::child_known(e.values[k]) by {
            assert(child_gen(e.values[k]));
        }
        assert forall|k: int| 0 <= k < e.values.len() implies #[trigger] crate::helpers::child_nn(e.values[k]) by {
            assert(child_gen(e.values[k]));
        }
    }
    if crate::helpers::tree_known(e) && crate::helpers::tree_nn(e) {
        assert forall|k: int| 0 <= k < e.values.len() implies #[trigger] child_gen(e.values[k]) by {
            assert(crate::helpers::child_known(e.values[k]));
            assert(crate::helpers::child_nn(e.values[k]));
        }
    }
}

/// An arena code generation handles is one whose operations the annotation
/// pass knows and that holds no negation.
pub proof fn lemma_arena_gen_known_nn(av: Seq<ExprView>)
    ensures
        arena_gen(av) == (crate::helpers::arena_known(av) && crate::helpers::arena_nn(av)),
{
    assert forall|i: int| 0 <= i < av.len() implies #[trigger] tree_gen(av[i]) == (crate::helpers::tree_known(av[i])
        && crate::helpers::tree_nn(av[i])) by {
        lemma_gen_known_nn(av[i]);
    }
    if arena_gen(av) {
        assert forall|i: int| 0 <= i < av.len() implies #[trigger] crate::helpers::tree_known(av[i]) by {
            assert(tree_gen(av[i]));
        }
        assert forall|i: int| 0 <= i < av.len() implies #[trigger] crate::helpers::tree_nn(av[i]) by {
            assert(tree_gen(av[i]));
        }
    }
    if crate::helpers::arena_known(av) && crate::helpers::arena_nn(av) {
        assert forall|i: int| 0 <= i < av.len() implies #[trigger] tree_gen(av[i]) by {
            assert(crate::helpers::tree_known(av[i]));
            assert(crate::helpers::tree_nn(av[i]));
        }
    }
}

// ---------------------------------------------------------------------------
// Operands of leaves
// ---------------------------------------------------------------------------

/// `cm`, `const` and `custom` nodes.
pub open spec fn is_column(op: ExprOp) -> bool {
    op == ExprOp::Cm || op == ExprOp::Const || op == ExprOp::Custom
}

/// The operand kind of a column node.
pub open spec fn column_type(op: ExprOp) -> RefType {
    if op == ExprOp::Cm {
        RefType::Cm
    } else if op == ExprOp::Const {
        RefType::Const
    } else {
        RefType::Custom
    }
}

pub open spec fn id_or_zero(id: Option<usize>) -> usize {
    match id {
        Some(x) => x,
        None => 0,
    }
}

pub open spec fn offset_or(o: Option<i64>, prime: i64) -> i64 {
    match o {
        Some(x) => x,
        None => prime,
    }
}

/// The operand of column node `e` at row offset `prime` (its own offset
/// when it has one), read from the evaluation map for the verifier.
pub open spec fn column_ref(ctx: CodeGenCtx, e: ExprView, prime: i64) -> RefView {
    let r = RefView {
        ref_type: column_type(e.op),
        id: id_or_zero(e.id),
        dim: e.dim,
        prime: Some(offset_or(e.row_offset, prime)),
        value: None,
        stage: None,
        stage_id: None,
        commit_id: e.commit_id,
        opening: None,
        boundary_id: None,
        airgroup_id: None,
        exp_id: None,
    };
    if ctx.verifier_evaluations {
        fix_eval_spec(ctx, r)
    } else {
        r
    }
}

/// The operand of an `exp` node that refers to a non-column expression.
pub open spec fn exp_operand(e: ExprView, prime: i64) -> RefView {
    let t = exp_target(e) as usize;
    RefView {
        ref_type: RefType::Exp,
        id: t,
        dim: e.dim,
        prime: Some(offset_or(e.row_offset, prime)),
        value: None,
        stage: None,
        stage_id: None,
        commit_id: None,
        opening: None,
        boundary_id: None,
        airgroup_id: None,
        exp_id: Some(t),
    }
}

/// The operand a non-arithmetic node evaluates to.
pub open spec fn leaf_result(ctx: CodeGenCtx, symbols: Seq<SymbolInfo>, av: Seq<ExprView>, e: ExprView, prime: i64) -> RefView {
    let id = id_or_zero(e.id);
    match e.op {
        ExprOp::Cm | ExprOp::Const | ExprOp::Custom => column_ref(ctx, e, prime),
        ExprOp::Exp => {
            let t = av[exp_target(e)];
            if is_column(t.op) {
                column_ref(ctx, t, prime)
            } else {
                fix_commit_spec(ctx, symbols, exp_operand(e, prime))
            }
        },
        ExprOp::Challenge => RefView { stage: Some(e.stage), stage_id: e.stage_id, ..plain_ref(RefType::Challenge, id, e.dim) },
        ExprOp::Public => plain_ref(RefType::Public, id, 1),
        ExprOp::Proofvalue => RefView { stage: Some(e.stage), ..plain_ref(RefType::Proofvalue, id, e.dim) },
        ExprOp::Number => RefView { value: e.value, ..plain_ref(RefType::Number, 0, 1) },
        ExprOp::Eval => plain_ref(RefType::Eval, id, e.dim),
        ExprOp::Airgroupvalue => RefView {
            stage: Some(e.stage),
            airgroup_id: e.airgroup_id,
            ..plain_ref(RefType::Airgroupvalue, id, e.dim)
        },
        ExprOp::Airvalue => RefView {
            stage: Some(e.stage),
            airgroup_id: e.airgroup_id,
            ..plain_ref(RefType::Airvalue, id, e.dim)
        },
        ExprOp::XDivXSubXi => RefView { opening: e.opening, ..plain_ref(RefType::XDivXSubXi, id, FIELD_EXTENSION) },
        _ => RefView { boundary_id: e.boundary_id, ..plain_ref(RefType::Zi, 0, 1) },
    }
}

/// The node a child stands for: the arena entry it names, or itself.
pub open spec fn child_node(av: Seq<ExprView>, c: ChildView) -> ExprView {
    match c {
        ChildView::Id(j) => av[j as int],
        ChildView::Inline(x) => *x,
    }
}

/// `r` is the operand child `c` evaluates to: the temporary its own code
/// writes when it is arithmetic, else the operand it stands for.
pub open spec fn child_operand(ctx: CodeGenCtx, symbols: Seq<SymbolInfo>, av: Seq<ExprView>, c: ChildView, prime: i64, r: RefView) -> bool {
    let e = child_node(av, c);
    if is_arith(e.op) {
        r.ref_type == RefType::Tmp
    } else {
        r == leaf_result(ctx, symbols, av, e, prime)
    }
}

/// What a node evaluates to depends on the configuration and on which
/// recorded expressions stand for committed columns, and is no temporary.
proof fn lemma_leaf_same(a: CodeGenCtx, b: CodeGenCtx, symbols: Seq<SymbolInfo>, av: Seq<ExprView>, e: ExprView, prime: i64)
    requires
        same_config(a, b),
        forall|id: usize, p: i64| #[trigger] calc_cm(a, id, p) == calc_cm(b, id, p),
    ensures
        leaf_result(a, symbols, av, e, prime) == leaf_result(b, symbols, av, e, prime),
        leaf_result(a, symbols, av, e, prime).ref_type != RefType::Tmp,
{
}

/// What a node evaluates to does not change as generation goes on.
proof fn lemma_leaf_stable(a: CodeGenCtx, b: CodeGenCtx, symbols: Seq<SymbolInfo>, av: Seq<ExprView>, e: ExprView, prime: i64)
    requires
        gen_grows(a, b),
    ensures
        leaf_result(a, symbols, av, e, prime) == leaf_result(b, symbols, av, e, prime),
        leaf_result(a, symbols, av, e, prime).ref_type != RefType::Tmp,
{
    assert forall|id: usize, p: i64| #[trigger] calc_cm(a, id, p) == calc_cm(b, id, p) by {
        if calc_lookup(a.calculated@, id, p) is Some {
            assert(calc_lookup(b.calculated@, id, p) == calc_lookup(a.calculated@, id, p));
        } else if calc_lookup(b.calculated@, id, p) is Some {
            assert(!calc_lookup(b.calculated@, id, p).unwrap().cm);
        }
    }
    lemma_leaf_same(a, b, symbols, av, e, prime);
}

proof fn lemma_operand_stable(a: CodeGenCtx, b: CodeGenCtx, symbols: Seq<SymbolInfo>, av: Seq<ExprView>, c: ChildView, prime: i64, r: RefView)
    requires
        gen_grows(a, b),
        child_operand(a, symbols, av, c, prime, r),
    ensures
        child_operand(b, symbols, av, c, prime, r),
{
    lemma_leaf_stable(a, b, symbols, av, child_node(av, c), prime);
}

/// The code operation of an arithmetic node.
pub open spec fn arith_op(op: ExprOp) -> CodeOp {
    if op == ExprOp::Add {
        CodeOp::Add
    } else if op == ExprOp::Sub {
        CodeOp::Sub
    } else {
        CodeOp::Mul
    }
}

/// Largest dimension of the operands (0 for none).
pub open spec fn max_dims(s: Seq<RefView>) -> usize
    decreases s.len(),
{
    if s.len() == 0 {
        0
    } else {
        let m = max_dims(s.drop_last());
        if s.last().dim > m { s.last().dim } else { m }
    }
}

/// The dimension of an operation's result: the largest of its operands, 1
/// when it has none.
pub open spec fn result_dim(s: Seq<RefView>) -> usize {
    if s.len() == 0 { 1 } else { max_dims(s) }
}

/// The last line computes, into a fresh temporary `r`, the operation of an
/// arithmetic node over `n` operands.
pub open spec fn arith_emitted(ctx: CodeGenCtx, op: ExprOp, n: int, r: RefView) -> bool {
    let last = ctx.code@.last()@;
    &&& ctx.tmp_used >= 1
    &&& ctx.code@.len() >= 1
    &&& r == plain_ref(RefType::Tmp, (ctx.tmp_used - 1) as usize, r.dim)
    &&& last.op == arith_op(op)
    &&& last.dest == r
    &&& last.src.len() == n
    &&& r.dim == result_dim(last.src)
}

fn build_column_ref(ctx: &CodeGenCtx, expr: &Expression, prime: i64) -> (r: CodeRef)
    requires
        is_column(expr.op),
    ensures
        r@ == column_ref(*ctx, expr@, prime),
{
    let t = match expr.op {
        ExprOp::Cm => RefType::Cm,
        ExprOp::Const => RefType::Const,
        _ => RefType::Custom,
    };
    let id = match expr.id {
        Some(x) => x,
        None => 0,
    };
    let p = match expr.row_offset {
        Some(x) => x,
        None => prime,
    };
    let mut r = CodeRef::plain(t, id, expr.dim);
    r.prime = Some(p);
    r.commit_id = expr.commit_id;
    if ctx.verifier_evaluations {
        fix_eval(&mut r, ctx);
    }
    r
}

/// Evaluates node `exp`: an arithmetic node emits its operation into a new
/// temporary, any other node is an operand.
fn eval_exp(
    ctx: &mut CodeGenCtx,
    symbols: &[SymbolInfo],
    expressions: &[Expression],
    exp: &Expression,
    prime: i64,
    Ghost(rank): Ghost<Seq<nat>>,
    Ghost(bound): Ghost<nat>,
) -> (r: CodeRef)
    requires
        ctx_wf(*old(ctx), symbols@.len() as int),
        ranked(arena_view(expressions@), rank),
        arena_gen(arena_view(expressions@)),
        refs_below(arena_view(expressions@), rank, exp@, bound),
        tree_gen(exp@),
    ensures
        ctx_wf(*final(ctx), symbols@.len() as int),
        gen_grows(*old(ctx), *final(ctx)),
        !is_arith(exp@.op) ==> *final(ctx) == *old(ctx) && r@ == leaf_result(
            *old(ctx),
            symbols@,
            arena_view(expressions@),
            exp@,
            prime,
        ),
        is_arith(exp@.op) ==> arith_emitted(*final(ctx), exp@.op, exp@.values.len() as int, r@) && final(ctx).code@.len()
            > old(ctx).code@.len(),
        is_arith(exp@.op) ==> forall|k: int|
            0 <= k < exp@.values.len() ==> child_operand(
                *final(ctx),
                symbols@,
                arena_view(expressions@),
                exp@.values[k],
                prime,
                #[trigger] final(ctx).code@.last()@.src[k],
            ),
    decreases bound, exp,
{
    let ghost av = arena_view(expressions@);
    proof {
        lemma_children_view(exp.values@);
        lemma_gen_pointwise(exp@);
        lemma_node_pointwise(exp@);
    }
    match exp.op {
        ExprOp::Add | ExprOp::Sub | ExprOp::Mul => {
            let ghost c0 = *ctx;
            let mut values: Vec<CodeRef> = Vec::new();
            let n = exp.values.len();
            let mut max_dim: usize = 0;
            let mut k: usize = 0;
            while k < n
                invariant
                    n == exp.values@.len(),
                    k <= n,
                    av == arena_view(expressions@),
                    ranked(av, rank),
                    arena_gen(av),
                    refs_below(av, rank, exp@, bound),
                    tree_gen(exp@),
                    exp@.values.len() == n,
                    forall|i: int| 0 <= i < n ==> #[trigger] exp@.values[i] == exp.values@[i]@,
                    forall|i: int| 0 <= i < n ==> #[trigger] child_gen(exp@.values[i]),
                    ctx_wf(*ctx, symbols@.len() as int),
                    gen_grows(c0, *ctx),
                    values@.len() == k,
                    max_dim == max_dims(refs_view(values@)),
                    forall|i: int| 0 <= i < k ==> child_operand(*ctx, symbols@, av, exp@.values[i], prime, #[trigger] values@[i]@),
                decreases n - k,
            {
                let ghost before = *ctx;
                let ghost vals0 = values@;
                let v = match &exp.values[k] {
                    ExprChild::Id(id) => {
                        let j = *id;
                        proof {
                            assert(child_refers_to(exp@.values[k as int], j as int));
                            lemma_child_refs(exp@, k as int, j as int);
                            assert(av[j as int] == expressions@[j as int]@);
                            assert(tree_gen(av[j as int]));
                            assert forall|i: int| #[trigger] refers_to(av[j as int], i) implies 0 <= i < av.len() && rank[i]
                                < rank[j as int] by {}
                        }
                        eval_exp(ctx, symbols, expressions, &expressions[j], prime, Ghost(rank), Ghost(rank[j as int]))
                    },
                    ExprChild::Inline(b) => {
                        proof {
                            assert forall|i: int| #[trigger] refers_to(b@, i) implies 0 <= i < av.len() && rank[i] < bound by {
                                assert(child_refers_to(exp@.values[k as int], i));
                                lemma_child_refs(exp@, k as int, i);
                            }
                            assert(child_gen(exp@.values[k as int]));
                        }
                        assert(decreases_to!(exp => exp.values@[k as int]));
                        eval_exp(ctx, symbols, expressions, &**b, prime, Ghost(rank), Ghost(bound))
                    },
                };
                proof {
                    lemma_grows_trans(c0, before, *ctx);
                    assert(refs_view(values@.push(v)).drop_last() =~= refs_view(values@));
                    assert forall|i: int| 0 <= i < k implies child_operand(*ctx, symbols@, av, exp@.values[i], prime, #[trigger] vals0[i]@) by {
                        lemma_operand_stable(before, *ctx, symbols@, av, exp@.values[i], prime, vals0[i]@);
                    }
                    let cn = child_node(av, exp@.values[k as int]);
                    match exp.values@[k as int] {
                        ExprChild::Id(j) => {
                            assert(cn == av[j as int]);
                            assert(av[j as int] == expressions@[j as int]@);
                        },
                        ExprChild::Inline(b) => {
                            assert(cn == b@);
                        },
                    }
                    if is_arith(cn.op) {
                        assert(v@.ref_type == RefType::Tmp);
                    }
                    assert(child_operand(*ctx, symbols@, av, exp@.values[k as int], prime, v@));
                }
                if v.dim > max_dim {
                    max_dim = v.dim;
                }
                values.push(v);
                k = k + 1;
            }
            let dim = if n == 0 {
                1
            } else {
                max_dim
            };
            let op = match exp.op {
                ExprOp::Add => CodeOp::Add,
                ExprOp::Sub => CodeOp::Sub,
                _ => CodeOp::Mul,
            };
            let r = CodeRef::plain(RefType::Tmp, ctx.tmp_used, dim);
            let ghost c1 = *ctx;
            ctx.code.push(CodeEntry { op, dest: r.deep_copy(), src: values });
            let len = ctx.code.len();
            ctx.tmp_used = ctx.tmp_used + 1;
            proof {
                assert forall|t: int| 0 <= t < c1.code@.len() implies #[trigger] ctx.code@[t]@ == c1.code@[t]@ by {
                    assert(ctx.code@[t] == c1.code@[t]);
                }
                lemma_grows_trans(c0, c1, *ctx);
                let srcs = ctx.code@.last()@.src;
                assert forall|i: int| 0 <= i < n implies child_operand(*ctx, symbols@, av, exp@.values[i], prime, #[trigger] srcs[i]) by {
                    lemma_operand_stable(c1, *ctx, symbols@, av, exp@.values[i], prime, srcs[i]);
                }
            }
            r
        },
        ExprOp::Cm | ExprOp::Const | ExprOp::Custom => build_column_ref(ctx, exp, prime),
        ExprOp::Exp => {
            let ref_id = match exp.id {
                Some(i) => i,
                None => 0,
            };
            proof {
                assert(refers_to(exp@, ref_id as int));
                assert(av[ref_id as int] == expressions@[ref_id as int]@);
            }
            let ref_expr = &expressions[ref_id];
            let col = match ref_expr.op {
                ExprOp::Cm | ExprOp::Const | ExprOp::Custom => true,
                _ => false,
            };
            if col {
                build_column_ref(ctx, ref_expr, prime)
            } else {
                let p = match exp.row_offset {
                    Some(x) => x,
                    None => prime,
                };
                let mut r = CodeRef::plain(RefType::Exp, ref_id, exp.dim);
                r.prime = Some(p);
                r.exp_id = Some(ref_id);
                fix_commit_pol(&mut r, ctx, symbols);
                r
            }
        },
        ExprOp::Challenge => {
            let mut r = CodeRef::plain(RefType::Challenge, match exp.id { Some(x) => x, None => 0 }, exp.dim);
            r.stage = Some(exp.stage);
            r.stage_id = exp.stage_id;
            r
        },
        ExprOp::Public => CodeRef::plain(RefType::Public, match exp.id { Some(x) => x, None => 0 }, 1),
        ExprOp::Proofvalue => {
            let mut r = CodeRef::plain(RefType::Proofvalue, match exp.id { Some(x) => x, None => 0 }, exp.dim);
            r.stage = Some(exp.stage);
            r
        },
        ExprOp::Number => {
            let mut r = CodeRef::plain(RefType::Number, 0, 1);
            r.value = match &exp.value {
                Some(v) => Some(v.clone()),
                None => None,
            };
            r
        },
        ExprOp::Eval => CodeRef::plain(RefType::Eval, match exp.id { Some(x) => x, None => 0 }, exp.dim),
        ExprOp::Airgroupvalue | ExprOp::Airvalue => {
            let t = match exp.op {
                ExprOp::Airgroupvalue => RefType::Airgroupvalue,
                _ => RefType::Airvalue,
            };
            let mut r = CodeRef::plain(t, match exp.id { Some(x) => x, None => 0 }, exp.dim);
            r.stage = Some(exp.stage);
            r.airgroup_id = exp.airgroup_id;
            r
        },
        ExprOp::XDivXSubXi => {
            let mut r = CodeRef::plain(RefType::XDivXSubXi, match exp.id { Some(x) => x, None => 0 }, FIELD_EXTENSION);
            r.opening = exp.opening;
            r
        },
        _ => {
            let mut r = CodeRef::plain(RefType::Zi, 0, 1);
            r.boundary_id = exp.boundary_id;
            r
        },
    }
}


/// Records `e` for `(id, prime)`, replacing an earlier record.
pub fn record_calc(c: &mut Vec<(usize, i64, CalcEntry)>, id: usize, prime: i64, e: CalcEntry)
    ensures
        forall|i: usize, p: i64|
            #![trigger calc_lookup(final(c)@, i, p)]
            calc_lookup(final(c)@, i, p) == if i == id && p == prime {
                Some(e)
            } else {
                calc_lookup(old(c)@, i, p)
            },
{
    let ghost c0 = c@;
    let mut k: usize = 0;
    let mut found = false;
    while k < c.len() && !found
        invariant
            c@ == c0,
            k <= c0.len(),
            forall|t: int| 0 <= t < k ==> !(#[trigger] c0[t].0 == id && c0[t].1 == prime),
            found ==> k < c0.len() && c0[k as int].0 == id && c0[k as int].1 == prime,
        decreases c0.len() - k + (if found { 0int } else { 1int }),
    {
        let (a, b, _) = c[k];
        if a == id && b == prime {
            found = true;
        } else {
            k = k + 1;
        }
    }
    if found {
        c.set(k, (id, prime, e));
        proof {
            assert(c@ == c0.update(k as int, (c0[k as int].0, c0[k as int].1, e)));
            assert forall|i: usize, p: i64|
                #![trigger calc_lookup(c@, i, p)]
                calc_lookup(c@, i, p) == if i == id && p == prime {
                    Some(e)
                } else {
                    calc_lookup(c0, i, p)
                } by {
                lemma_calc_update(c0, k as int, e, i, p, 0);
            }
        }
    } else {
        c.push((id, prime, e));
        proof {
            assert forall|i: usize, p: i64|
                #![trigger calc_lookup(c@, i, p)]
                calc_lookup(c@, i, p) == if i == id && p == prime {
                    Some(e)
                } else {
                    calc_lookup(c0, i, p)
                } by {
                lemma_calc_push(c0, (id, prime, e), i, p, 0);
                if i == id && p == prime {
                    lemma_calc_absent(c0, id, prime, 0);
                }
            }
        }
    }
}

proof fn lemma_calc_absent(c: Seq<(usize, i64, CalcEntry)>, id: usize, prime: i64, i: int)
    requires
        0 <= i,
        forall|t: int| 0 <= t < c.len() ==> !(#[trigger] c[t].0 == id && c[t].1 == prime),
    ensures
        calc_from(c, id, prime, i) is None,
    decreases c.len() - i,
{
    if i < c.len() {
        lemma_calc_absent(c, id, prime, i + 1);
    }
}

/// Every lookup that succeeds in `a` succeeds in `b`.
pub open spec fn calc_kept(a: Seq<(usize, i64, CalcEntry)>, b: Seq<(usize, i64, CalcEntry)>) -> bool {
    forall|id: usize, p: i64|
        #![trigger calc_lookup(b, id, p)]
        calc_lookup(a, id, p) is Some ==> calc_lookup(b, id, p) is Some
}

/// The expressions that `e` needs at row offset `prime` are generated in
/// `c`: the target of an `exp` node (at its own row offset, if it has one),
/// and, through the children of an arithmetic node, those of each child;
/// an arena child is followed into its entry (of lower `rank`).
pub open spec fn deps_done(
    c: Seq<(usize, i64, CalcEntry)>,
    av: Seq<ExprView>,
    rank: Seq<nat>,
    e: ExprView,
    prime: i64,
    bound: nat,
) -> bool
    decreases bound, e, e.values.len() + 1,
{
    match e.op {
        ExprOp::Exp => calc_lookup(
            c,
            exp_target(e) as usize,
            match e.row_offset {
                Some(x) => x,
                None => prime,
            },
        ) is Some,
        ExprOp::Add | ExprOp::Sub | ExprOp::Mul => children_deps_done(c, av, rank, e, prime, bound, e.values.len() as int),
        _ => true,
    }
}

/// The first `k` children of `e` have what they need generated in `c`.
pub open spec fn children_deps_done(
    c: Seq<(usize, i64, CalcEntry)>,
    av: Seq<ExprView>,
    rank: Seq<nat>,
    e: ExprView,
    prime: i64,
    bound: nat,
    k: int,
) -> bool
    decreases bound, e, k,
{
    if k <= 0 || k > e.values.len() {
        true
    } else {
        children_deps_done(c, av, rank, e, prime, bound, k - 1) && match e.values[k - 1] {
            ChildView::Id(j) => if 0 <= j < av.len() && rank[j as int] < bound {
                deps_done(c, av, rank, av[j as int], prime, rank[j as int])
            } else {
                false
            },
            ChildView::Inline(b) => deps_done(c, av, rank, *b, prime, bound),
        }
    }
}

proof fn lemma_deps_kept(
    a: Seq<(usize, i64, CalcEntry)>,
    b: Seq<(usize, i64, CalcEntry)>,
    av: Seq<ExprView>,
    rank: Seq<nat>,
    e: ExprView,
    prime: i64,
    bound: nat,
)
    requires
        calc_kept(a, b),
        deps_done(a, av, rank, e, prime, bound),
    ensures
        deps_done(b, av, rank, e, prime, bound),
    decreases bound, e, e.values.len() + 1,
{
    match e.op {
        ExprOp::Exp => {
            let p = match e.row_offset {
                Some(x) => x,
                None => prime,
            };
            assert(calc_lookup(b, exp_target(e) as usize, p) is Some);
        },
        ExprOp::Add | ExprOp::Sub | ExprOp::Mul => {
            lemma_children_deps_kept(a, b, av, rank, e, prime, bound, e.values.len() as int);
        },
        _ => {},
    }
}

proof fn lemma_children_deps_kept(
    a: Seq<(usize, i64, CalcEntry)>,
    b: Seq<(usize, i64, CalcEntry)>,
    av: Seq<ExprView>,
    rank: Seq<nat>,
    e: ExprView,
    prime: i64,
    bound: nat,
    k: int,
)
    requires
        calc_kept(a, b),
        children_deps_done(a, av, rank, e, prime, bound, k),
    ensures
        children_deps_done(b, av, rank, e, prime, bound, k),
    decreases bound, e, k,
{
    if 0 < k <= e.values.len() {
        lemma_children_deps_kept(a, b, av, rank, e, prime, bound, k - 1);
        match e.values[k - 1] {
            ChildView::Id(j) => {
                lemma_deps_kept(a, b, av, rank, av[j as int], prime, rank[j as int]);
            },
            ChildView::Inline(bx) => {
                lemma_deps_kept(a, b, av, rank, *bx, prime, bound);
            },
        }
    }
}

/// Generates, before `exp`, every expression it refers to.
fn calculate_deps(
    ctx: &mut CodeGenCtx,
    symbols: &[SymbolInfo],
    expressions: &[Expression],
    exp: &Expression,
    prime: i64,
    Ghost(rank): Ghost<Seq<nat>>,
    Ghost(bound): Ghost<nat>,
)
    requires
        ctx_wf(*old(ctx), symbols@.len() as int),
        ranked(arena_view(expressions@), rank),
        arena_gen(arena_view(expressions@)),
        refs_below(arena_view(expressions@), rank, exp@, bound),
        tree_gen(exp@),
    ensures
        ctx_wf(*final(ctx), symbols@.len() as int),
        gen_grows(*old(ctx), *final(ctx)),
        deps_done(final(ctx).calculated@, arena_view(expressions@), rank, exp@, prime, bound),
    decreases 2 * bound, height(exp@),
{
    let ghost av = arena_view(expressions@);
    proof {
        lemma_children_view(exp.values@);
        lemma_gen_pointwise(exp@);
        lemma_node_pointwise(exp@);
    }
    match exp.op {
        ExprOp::Exp => {
            let p = match exp.row_offset {
                Some(x) => x,
                None => prime,
            };
            let ref_id = match exp.id {
                Some(i) => i,
                None => 0,
            };
            proof {
                assert(refers_to(exp@, ref_id as int));
            }
            pil_code_gen_inner(ctx, symbols, expressions, ref_id, p, Ghost(rank));
            proof {
                assert(exp_target(exp@) as usize == ref_id);
                assert(calc_lookup(ctx.calculated@, ref_id, p) is Some);
            }
        },
        ExprOp::Add | ExprOp::Sub | ExprOp::Mul => {
            let ghost c0 = *ctx;
            let n = exp.values.len();
            let mut k: usize = 0;
            while k < n
                invariant
                    n == exp.values@.len(),
                    k <= n,
                    av == arena_view(expressions@),
                    ranked(av, rank),
                    arena_gen(av),
                    refs_below(av, rank, exp@, bound),
                    exp@.values.len() == n,
                    forall|i: int| 0 <= i < n ==> #[trigger] exp@.values[i] == exp.values@[i]@,
                    forall|i: int| 0 <= i < n ==> #[trigger] child_gen(exp@.values[i]),
                    forall|i: int| 0 <= i < n ==> #[trigger] child_height(exp@.values[i]) < height(exp@),
                    ctx_wf(*ctx, symbols@.len() as int),
                    gen_grows(c0, *ctx),
                    children_deps_done(ctx.calculated@, av, rank, exp@, prime, bound, k as int),
                decreases n - k,
            {
                let ghost before = *ctx;
                match &exp.values[k] {
                    ExprChild::Id(id) => {
                        let j = *id;
                        proof {
                            assert(child_refers_to(exp@.values[k as int], j as int));
                            lemma_child_refs(exp@, k as int, j as int);
                            assert(av[j as int] == expressions@[j as int]@);
                            assert(tree_gen(av[j as int]));
                            assert forall|i: int| #[trigger] refers_to(av[j as int], i) implies 0 <= i < av.len() && rank[i]
                                < rank[j as int] by {}
                        }
                        calculate_deps(ctx, symbols, expressions, &expressions[j], prime, Ghost(rank), Ghost(rank[j as int]));
                    },
                    ExprChild::Inline(b) => {
                        proof {
                            assert forall|i: int| #[trigger] refers_to(b@, i) implies 0 <= i < av.len() && rank[i] < bound by {
                                assert(child_refers_to(exp@.values[k as int], i));
                                lemma_child_refs(exp@, k as int, i);
                            }
                            assert(child_gen(exp@.values[k as int]));
                            assert(child_height(exp@.values[k as int]) < height(exp@));
                        }
                        calculate_deps(ctx, symbols, expressions, &**b, prime, Ghost(rank), Ghost(bound));
                    },
                }
                proof {
                    lemma_grows_trans(c0, before, *ctx);
                    lemma_children_deps_kept(before.calculated@, ctx.calculated@, av, rank, exp@, prime, bound, k as int);
                }
                k = k + 1;
            }
        },
        _ => {},
    }
}

/// The operand naming expression `exp_id` at row offset `prime`.
pub open spec fn gen_dest(exp_id: usize, dim: usize, prime: i64) -> RefView {
    RefView { prime: Some(prime), ..plain_ref(RefType::Exp, exp_id, dim) }
}

/// What generating `(exp_id, prime)` leaves in the context.
pub open spec fn generated(old: CodeGenCtx, new: CodeGenCtx, symbols: Seq<SymbolInfo>, av: Seq<ExprView>, exp_id: usize, prime: i64) -> bool {
    &&& gen_grows(old, new)
    &&& calc_lookup(new.calculated@, exp_id, prime) is Some
    &&& calc_lookup(old.calculated@, exp_id, prime) is Some ==> new == old
    &&& calc_lookup(old.calculated@, exp_id, prime) is None ==> {
        &&& calc_lookup(new.calculated@, exp_id, prime) == Some(CalcEntry { cm: false, tmp_id: Some(new.tmp_used) })
        &&& new.code@.len() > old.code@.len()
        &&& new.code@.last()@.dest == fix_commit_spec(new, symbols, gen_dest(exp_id, av[exp_id as int].dim, prime))
        &&& is_arith(av[exp_id as int].op) ==> new.code@.last()@.op == arith_op(av[exp_id as int].op)
            && new.code@.last()@.src.len() == av[exp_id as int].values.len()
        &&& is_arith(av[exp_id as int].op) ==> forall|k: int|
            0 <= k < av[exp_id as int].values.len() ==> child_operand(
                new,
                symbols,
                av,
                av[exp_id as int].values[k],
                prime,
                #[trigger] new.code@.last()@.src[k],
            )
        &&& !is_arith(av[exp_id as int].op) ==> new.code@.last()@.op == CodeOp::Copy && new.code@.last()@.src == seq![
            leaf_result(new, symbols, av, av[exp_id as int], prime),
        ]
    }
}

fn pil_code_gen_inner(
    ctx: &mut CodeGenCtx,
    symbols: &[SymbolInfo],
    expressions: &[Expression],
    exp_id: usize,
    prime: i64,
    Ghost(rank): Ghost<Seq<nat>>,
)
    requires
        ctx_wf(*old(ctx), symbols@.len() as int),
        ranked(arena_view(expressions@), rank),
        arena_gen(arena_view(expressions@)),
        exp_id < expressions@.len(),
    ensures
        ctx_wf(*final(ctx), symbols@.len() as int),
        generated(*old(ctx), *final(ctx), symbols@, arena_view(expressions@), exp_id, prime),
    decreases 2 * rank[exp_id as int] + 1, 0nat,
{
    let ghost av = arena_view(expressions@);
    let ghost c0 = *ctx;
    match find_calc(&ctx.calculated, exp_id, prime) {
        Some(_) => {
            return;
        },
        None => {},
    }
    proof {
        assert(av[exp_id as int] == expressions@[exp_id as int]@);
        assert(tree_gen(av[exp_id as int]));
        assert forall|i: int| #[trigger] refers_to(av[exp_id as int], i) implies 0 <= i < av.len() && rank[i]
            < rank[exp_id as int] by {}
    }
    calculate_deps(ctx, symbols, expressions, &expressions[exp_id], prime, Ghost(rank), Ghost(rank[exp_id as int]));
    let e = &expressions[exp_id];
    let ghost c1 = *ctx;
    let ret = eval_exp(ctx, symbols, expressions, e, prime, Ghost(rank), Ghost(rank[exp_id as int]));
    let ghost c2 = *ctx;
    proof {
        lemma_grows_trans(c0, c1, c2);
    }
    let mut r = CodeRef::plain(RefType::Exp, exp_id, e.dim);
    r.prime = Some(prime);
    let ghost r0 = r@;
    let is_tmp = ret.ref_type == RefType::Tmp;
    fix_commit_pol(&mut r, ctx, symbols);
    if is_tmp {
        let last_idx = ctx.code.len() - 1;
        let op = ctx.code[last_idx].op;
        let src = copy_refs(&ctx.code[last_idx].src);
        ctx.code.set(last_idx, CodeEntry { op, dest: r.deep_copy(), src });
        if r.ref_type == RefType::Cm {
            ctx.tmp_used = ctx.tmp_used - 1;
        }
    } else {
        let mut src: Vec<CodeRef> = Vec::new();
        src.push(ret);
        ctx.code.push(CodeEntry { op: CodeOp::Copy, dest: r.deep_copy(), src });
    }
    let ghost c3 = *ctx;
    proof {
        assert forall|t: int| 0 <= t < c2.code@.len() - 1 implies #[trigger] c3.code@[t]@ == c2.code@[t]@ by {
            assert(c3.code@[t] == c2.code@[t]);
        }
        assert forall|t: int| 0 <= t < c0.code@.len() implies #[trigger] c3.code@[t]@ == c0.code@[t]@ by {
            assert(c2.code@[t]@ == c0.code@[t]@);
            assert(c3.code@[t] == c2.code@[t]);
        }
    }
    record_calc(&mut ctx.calculated, exp_id, prime, CalcEntry { cm: false, tmp_id: Some(ctx.tmp_used) });
    proof {
        let c4 = *ctx;
        assert forall|id: usize, p: i64| #[trigger] calc_cm(c2, id, p) == calc_cm(c4, id, p) by {
            if !(id == exp_id && p == prime) {
                assert(calc_lookup(c4.calculated@, id, p) == calc_lookup(c2.calculated@, id, p));
            } else {
                assert(calc_cm(c1, exp_id, prime) == false);
                if calc_lookup(c2.calculated@, exp_id, prime) is Some {
                    assert(calc_lookup(c0.calculated@, exp_id, prime) is None);
                    if calc_lookup(c1.calculated@, exp_id, prime) is Some {
                        assert(calc_lookup(c2.calculated@, exp_id, prime) == calc_lookup(c1.calculated@, exp_id, prime));
                    }
                    assert(!calc_lookup(c2.calculated@, exp_id, prime).unwrap().cm);
                }
            }
        }
        let e = av[exp_id as int];
        lemma_leaf_same(c2, c4, symbols@, av, e, prime);
        if is_arith(e.op) {
            let srcs = c2.code@.last()@.src;
            assert(c4.code@.last()@.src == srcs);
            assert forall|k: int| 0 <= k < e.values.len() implies child_operand(c4, symbols@, av, e.values[k], prime, #[trigger] srcs[k]) by {
                lemma_leaf_same(c2, c4, symbols@, av, child_node(av, e.values[k]), prime);
            }
        } else {
            lemma_leaf_same(c1, c2, symbols@, av, e, prime);
            assert(c4.code@.last()@.src =~= seq![leaf_result(c4, symbols@, av, e, prime)]);
        }
        assert(calc_cm(c1, exp_id, prime) == false);
        assert(calc_lookup(c0.calculated@, exp_id, prime) is None);
        if calc_lookup(c2.calculated@, exp_id, prime) is Some {
            assert(!calc_lookup(c2.calculated@, exp_id, prime).unwrap().cm);
        }
        assert(calc_cm(c2, exp_id, prime) == calc_cm(c4, exp_id, prime));
        assert(fix_commit_spec(c2, symbols@, r0) == fix_commit_spec(c4, symbols@, r0));
        assert forall|id: usize, p: i64|
            #![trigger calc_lookup(c4.calculated@, id, p)]
            calc_lookup(c0.calculated@, id, p) is Some implies calc_lookup(c4.calculated@, id, p) == calc_lookup(
                c0.calculated@,
                id,
                p,
            ) by {
            assert(calc_lookup(c2.calculated@, id, p) == calc_lookup(c0.calculated@, id, p));
        }
        assert forall|id: usize, p: i64|
            #![trigger calc_lookup(c4.calculated@, id, p)]
            calc_lookup(c0.calculated@, id, p) is None && calc_lookup(c4.calculated@, id, p) is Some implies !calc_lookup(
                c4.calculated@,
                id,
                p,
            ).unwrap().cm by {
            if !(id == exp_id && p == prime) {
                assert(calc_lookup(c4.calculated@, id, p) == calc_lookup(c2.calculated@, id, p));
            }
        }
        assert forall|t: int| c0.code@.len() <= t < c4.code@.len() implies (#[trigger] c4.code@[t]).op != CodeOp::SubSwap by {
            if t < c2.code@.len() - 1 || (!is_tmp && t < c2.code@.len()) {
                assert(c4.code@[t]@ == c2.code@[t]@);
                assert(c2.code@[t].op != CodeOp::SubSwap);
            }
        }
        if c0.witness_by_exp_id@.len() == 0 {
            assert(fix_commit_spec(c2, symbols@, r0) == r0);
            assert forall|t: int| c0.code@.len() <= t < c4.code@.len() implies dest_plain(#[trigger] c4.code@[t]@.dest) by {
                if t < c2.code@.len() - 1 || (!is_tmp && t < c2.code@.len()) {
                    assert(c4.code@[t]@ == c2.code@[t]@);
                    assert(dest_plain(c2.code@[t]@.dest));
                }
            }
        }
    }
}

/// Generates the code of expression `exp_id` at row offset `prime`, after
/// the code of every expression it refers to. An expression generated before
/// is not generated again.
pub fn pil_code_gen(ctx: &mut CodeGenCtx, symbols: &[SymbolInfo], expressions: &[Expression], exp_id: usize, prime: i64)
    requires
        ctx_wf(*old(ctx), symbols@.len() as int),
        arena_wf(arena_view(expressions@)),
        arena_gen(arena_view(expressions@)),
        exp_id < expressions@.len(),
    ensures
        ctx_wf(*final(ctx), symbols@.len() as int),
        generated(*old(ctx), *final(ctx), symbols@, arena_view(expressions@), exp_id, prime),
{
    let ghost av = arena_view(expressions@);
    let ghost rank = canon_rank(av);
    proof {
        assert(ranked(av, rank));
    }
    pil_code_gen_inner(ctx, symbols, expressions, exp_id, prime, Ghost(rank));
}


// ---------------------------------------------------------------------------
// build_code
// ---------------------------------------------------------------------------

/// The row offset an operand is keyed by (0 when it has none).
pub open spec fn prime_of(r: RefView) -> i64 {
    match r.prime {
        Some(p) => p,
        None => 0,
    }
}

/// The temporary recorded for `(prime, id)`, looking from position `i` on.
pub open spec fn map_from(m: Seq<(i64, usize, usize)>, prime: i64, id: usize, i: int) -> Option<usize>
    decreases m.len() - i,
{
    if i < 0 || i >= m.len() {
        None
    } else if m[i].0 == prime && m[i].1 == id {
        Some(m[i].2)
    } else {
        map_from(m, prime, id, i + 1)
    }
}

/// The counter after one more temporary (wrapping at the top of `usize`).
pub open spec fn next_tmp(t: usize) -> usize {
    if t == usize::MAX { 0 } else { (t + 1) as usize }
}

/// An `exp` operand becomes the temporary of its `(prime, id)`, the next
/// free one the first time; other operands stay.
pub open spec fn fix_expr_spec(m: Seq<(i64, usize, usize)>, t: usize, r: RefView) -> (Seq<(i64, usize, usize)>, usize, RefView) {
    if r.ref_type != RefType::Exp {
        (m, t, r)
    } else {
        match map_from(m, prime_of(r), r.id, 0) {
            Some(x) => (m, t, RefView { ref_type: RefType::Tmp, id: x, ..r }),
            None => (m.push((prime_of(r), r.id, t)), next_tmp(t), RefView { ref_type: RefType::Tmp, id: t, ..r }),
        }
    }
}

/// `fix_expr_spec` over a list of operands, in order.
pub open spec fn fix_srcs(m: Seq<(i64, usize, usize)>, t: usize, rs: Seq<RefView>) -> (Seq<(i64, usize, usize)>, usize, Seq<RefView>)
    decreases rs.len(),
{
    if rs.len() == 0 {
        (m, t, Seq::empty())
    } else {
        let (m1, t1, p) = fix_srcs(m, t, rs.drop_last());
        let (m2, t2, r) = fix_expr_spec(m1, t1, rs.last());
        (m2, t2, p.push(r))
    }
}

/// A line with its sources, then its destination, fixed.
pub open spec fn fix_entry(m: Seq<(i64, usize, usize)>, t: usize, e: EntryView) -> (Seq<(i64, usize, usize)>, usize, EntryView) {
    let (m1, t1, src) = fix_srcs(m, t, e.src);
    let (m2, t2, d) = fix_expr_spec(m1, t1, e.dest);
    (m2, t2, EntryView { op: e.op, dest: d, src })
}

/// Every line fixed, in order.
pub open spec fn fix_code(m: Seq<(i64, usize, usize)>, t: usize, es: Seq<EntryView>) -> (Seq<(i64, usize, usize)>, usize, Seq<EntryView>)
    decreases es.len(),
{
    if es.len() == 0 {
        (m, t, Seq::empty())
    } else {
        let (m1, t1, p) = fix_code(m, t, es.drop_last());
        let (m2, t2, e) = fix_entry(m1, t1, es.last());
        (m2, t2, p.push(e))
    }
}

/// The dimension of an operand given the dimensions of the temporaries:
/// a temporary's recorded one (0 when unknown), 3 for `Zi`, else its own.
pub open spec fn get_dim_spec(r: RefView, td: Seq<usize>) -> usize {
    if r.ref_type == RefType::Tmp {
        if r.id < td.len() { td[r.id as int] } else { 0 }
    } else if r.ref_type == RefType::Zi {
        FIELD_EXTENSION
    } else {
        r.dim
    }
}

/// Largest dimension of the operands (0 for none).
pub open spec fn max_get_dim(s: Seq<RefView>, td: Seq<usize>) -> usize
    decreases s.len(),
{
    if s.len() == 0 {
        0
    } else {
        let m = max_get_dim(s.drop_last(), td);
        let d = get_dim_spec(s.last(), td);
        if d > m { d } else { m }
    }
}

/// `td` with entry `id` set to `d`, extended with zeros when too short.
pub open spec fn set_dim(td: Seq<usize>, id: usize, d: usize) -> Seq<usize> {
    let ext = if td.len() <= id { td + Seq::new((id + 1 - td.len()) as nat, |i: int| 0usize) } else { td };
    ext.update(id as int, d)
}

/// A line with the dimensions of its destination and sources recomputed.
pub open spec fn dims_entry(td: Seq<usize>, e: EntryView) -> (Seq<usize>, EntryView) {
    let nd = if e.src.len() == 0 { 1 } else { max_get_dim(e.src, td) };
    let td2 = set_dim(td, e.dest.id, nd);
    (td2, EntryView { op: e.op, dest: RefView { dim: nd, ..e.dest }, src: e.src.map_values(|s: RefView| RefView { dim: get_dim_spec(s, td2), ..s }) })
}

/// Every line's dimensions recomputed, in order.
pub open spec fn dims_code(td: Seq<usize>, es: Seq<EntryView>) -> (Seq<usize>, Seq<EntryView>)
    decreases es.len(),
{
    if es.len() == 0 {
        (td, Seq::empty())
    } else {
        let (td1, p) = dims_code(td, es.drop_last());
        let (td2, e) = dims_entry(td1, es.last());
        (td2, p.push(e))
    }
}

fn find_map(m: &Vec<(i64, usize, usize)>, prime: i64, id: usize) -> (r: Option<usize>)
    ensures
        r == map_from(m@, prime, id, 0),
{
    let mut i: usize = 0;
    while i < m.len()
        invariant
            i <= m@.len(),
            map_from(m@, prime, id, 0) == map_from(m@, prime, id, i as int),
        decreases m.len() - i,
    {
        let (p, e, x) = m[i];
        if p == prime && e == id {
            return Some(x);
        }
        i = i + 1;
    }
    None
}

fn fix_operand(r: &mut CodeRef, exp_map: &mut Vec<(i64, usize, usize)>, tmp_used: &mut usize)
    ensures
        (final(exp_map)@, *final(tmp_used), final(r)@) == fix_expr_spec(old(exp_map)@, *old(tmp_used), old(r)@),
{
    if r.ref_type != RefType::Exp {
        return;
    }
    let prime = match r.prime {
        Some(p) => p,
        None => 0,
    };
    let id = match find_map(exp_map, prime, r.id) {
        Some(x) => x,
        None => {
            let x = *tmp_used;
            exp_map.push((prime, r.id, x));
            *tmp_used = if x == usize::MAX { 0 } else { x + 1 };
            x
        },
    };
    r.ref_type = RefType::Tmp;
    r.id = id;
}

fn fix_line(e: &CodeEntry, exp_map: &mut Vec<(i64, usize, usize)>, tmp_used: &mut usize) -> (r: CodeEntry)
    ensures
        (final(exp_map)@, *final(tmp_used), r@) == fix_entry(old(exp_map)@, *old(tmp_used), e@),
{
    let mut src: Vec<CodeRef> = Vec::new();
    let n = e.src.len();
    let mut j: usize = 0;
    while j < n
        invariant
            n == e.src@.len(),
            j <= n,
            (exp_map@, *tmp_used, refs_view(src@)) == fix_srcs(old(exp_map)@, *old(tmp_used), refs_view(e.src@).subrange(0, j as int)),
        decreases n - j,
    {
        let mut s = e.src[j].deep_copy();
        fix_operand(&mut s, exp_map, tmp_used);
        proof {
            assert(refs_view(e.src@).subrange(0, j as int + 1).drop_last() =~= refs_view(e.src@).subrange(0, j as int));
            assert(refs_view(src@.push(s)) =~= refs_view(src@).push(s@));
        }
        src.push(s);
        j = j + 1;
    }
    proof {
        assert(refs_view(e.src@).subrange(0, n as int) =~= refs_view(e.src@));
    }
    let mut d = e.dest.deep_copy();
    fix_operand(&mut d, exp_map, tmp_used);
    CodeEntry { op: e.op, dest: d, src }
}

fn dims_line(e: &CodeEntry, tmp_dim: &mut Vec<usize>) -> (r: CodeEntry)
    ensures
        (final(tmp_dim)@, r@) == dims_entry(old(tmp_dim)@, e@),
{
    let ghost td0 = tmp_dim@;
    let n = e.src.len();
    let mut m: usize = 0;
    let mut j: usize = 0;
    while j < n
        invariant
            n == e.src@.len(),
            j <= n,
            tmp_dim@ == td0,
            m == max_get_dim(refs_view(e.src@).subrange(0, j as int), td0),
        decreases n - j,
    {
        let s = &e.src[j];
        let d = dim_of(s, tmp_dim);
        proof {
            assert(refs_view(e.src@).subrange(0, j as int + 1).drop_last() =~= refs_view(e.src@).subrange(0, j as int));
        }
        if d > m {
            m = d;
        }
        j = j + 1;
    }
    proof {
        assert(refs_view(e.src@).subrange(0, n as int) =~= refs_view(e.src@));
    }
    let new_dim = if n == 0 {
        1
    } else {
        m
    };
    let dest_id = e.dest.id;
    while tmp_dim.len() <= dest_id
        invariant
            tmp_dim@.len() >= td0.len(),
            tmp_dim@ == td0 + Seq::new((tmp_dim@.len() - td0.len()) as nat, |i: int| 0usize),
            td0.len() <= dest_id ==> tmp_dim@.len() <= dest_id + 1,
            td0.len() > dest_id ==> tmp_dim@.len() == td0.len(),
        decreases dest_id + 1 - tmp_dim@.len(),
    {
        tmp_dim.push(0);
        proof {
            assert(tmp_dim@ =~= td0 + Seq::new((tmp_dim@.len() - td0.len()) as nat, |i: int| 0usize));
        }
    }
    proof {
        let ext = if td0.len() <= dest_id { td0 + Seq::new((dest_id + 1 - td0.len()) as nat, |i: int| 0usize) } else { td0 };
        if td0.len() <= dest_id {
            assert(tmp_dim@.len() == dest_id + 1);
        } else {
            assert(tmp_dim@.len() == td0.len());
        }
        assert(tmp_dim@ =~= ext);
    }
    tmp_dim.set(dest_id, new_dim);
    let mut dest = e.dest.deep_copy();
    dest.dim = new_dim;
    let mut src: Vec<CodeRef> = Vec::new();
    let mut k: usize = 0;
    while k < n
        invariant
            n == e.src@.len(),
            k <= n,
            src@.len() == k,
            forall|i: int| 0 <= i < k ==> #[trigger] src@[i]@ == (RefView { dim: get_dim_spec(e.src@[i]@, tmp_dim@), ..e.src@[i]@ }),
        decreases n - k,
    {
        let mut s = e.src[k].deep_copy();
        s.dim = dim_of(&e.src[k], tmp_dim);
        src.push(s);
        k = k + 1;
    }
    proof {
        let (td2, ev) = dims_entry(td0, e@);
        assert(refs_view(src@) =~= ev.src);
    }
    CodeEntry { op: e.op, dest, src }
}

fn dim_of(r: &CodeRef, tmp_dim: &Vec<usize>) -> (d: usize)
    ensures
        d == get_dim_spec(r@, tmp_dim@),
{
    match r.ref_type {
        RefType::Tmp => {
            if r.id < tmp_dim.len() {
                tmp_dim[r.id]
            } else {
                0
            }
        },
        RefType::Zi => FIELD_EXTENSION,
        _ => r.dim,
    }
}

/// A finished block of code and the number of temporaries it uses.
#[derive(Debug)]
pub struct CodeBlock {
    pub tmp_used: usize,
    pub code: Vec<CodeEntry>,
}

/// Finishes the generated code: every `exp` operand becomes a temporary (one
/// per expression and row offset, numbered after the temporaries in use), and
/// for the verifier the dimensions are recomputed from the operands. The
/// context is emptied for the next generation.
pub fn build_code(ctx: &mut CodeGenCtx) -> (block: CodeBlock)
    requires
        old(ctx).verifier_evaluations ==> forall|k: int| 0 <= k < old(ctx).code@.len() ==> (#[trigger] old(ctx).code@[k]).op
            != CodeOp::SubSwap && dest_plain(old(ctx).code@[k]@.dest),
    ensures
        ({
            let (m, t, c) = fix_code(Seq::empty(), old(ctx).tmp_used, code_view(old(ctx).code@));
            &&& same_config(*old(ctx), *final(ctx))
            &&& final(ctx).exp_map@ == m
            &&& final(ctx).tmp_used == 0
            &&& final(ctx).code@.len() == 0
            &&& final(ctx).calculated@.len() == 0
            &&& block.tmp_used == t
            &&& code_view(block.code@) == if old(ctx).verifier_evaluations { dims_code(Seq::empty(), c).1 } else { c }
        }),
{
    let ghost c0 = code_view(ctx.code@);
    let ghost t0 = ctx.tmp_used;
    ctx.exp_map = Vec::new();
    let mut fixed: Vec<CodeEntry> = Vec::new();
    let n = ctx.code.len();
    let mut i: usize = 0;
    while i < n
        invariant
            n == c0.len(),
            i <= n,
            code_view(ctx.code@) == c0,
            (ctx.exp_map@, ctx.tmp_used, code_view(fixed@)) == fix_code(Seq::empty(), t0, c0.subrange(0, i as int)),
            same_config(*old(ctx), *ctx),
            ctx.verifier_evaluations == old(ctx).verifier_evaluations,
        decreases n - i,
    {
        let e = fix_line(&ctx.code[i], &mut ctx.exp_map, &mut ctx.tmp_used);
        proof {
            assert(c0.subrange(0, i as int + 1).drop_last() =~= c0.subrange(0, i as int));
            assert(c0[i as int] == ctx.code@[i as int]@);
            assert(code_view(fixed@.push(e)) =~= code_view(fixed@).push(e@));
        }
        fixed.push(e);
        i = i + 1;
    }
    proof {
        assert(c0.subrange(0, n as int) =~= c0);
    }
    let ghost fc = code_view(fixed@);
    let code = if ctx.verifier_evaluations {
        let mut tmp_dim: Vec<usize> = Vec::new();
        let mut out: Vec<CodeEntry> = Vec::new();
        let mut k: usize = 0;
        while k < fixed.len()
            invariant
                k <= fixed@.len(),
                fc == code_view(fixed@),
                (tmp_dim@, code_view(out@)) == dims_code(Seq::empty(), fc.subrange(0, k as int)),
            decreases fixed.len() - k,
        {
            let e = dims_line(&fixed[k], &mut tmp_dim);
            proof {
                assert(fc.subrange(0, k as int + 1).drop_last() =~= fc.subrange(0, k as int));
                assert(code_view(out@.push(e)) =~= code_view(out@).push(e@));
            }
            out.push(e);
            k = k + 1;
        }
        proof {
            assert(fc.subrange(0, fixed@.len() as int) =~= fc);
        }
        out
    } else {
        fixed
    };
    let tmp_used = ctx.tmp_used;
    ctx.code = Vec::new();
    ctx.calculated = Vec::new();
    ctx.tmp_used = 0;
    CodeBlock { tmp_used, code }
}


/// Recomputing dimensions keeps the number of lines.
pub proof fn lemma_dims_code_len(td: Seq<usize>, es: Seq<EntryView>)
    ensures
        dims_code(td, es).1.len() == es.len(),
    decreases es.len(),
{
    if es.len() > 0 {
        lemma_dims_code_len(td, es.drop_last());
    }
}

} // verus!
