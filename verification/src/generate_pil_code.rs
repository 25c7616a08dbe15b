//! Code generation for a whole AIR: the code of every expression that needs
//! one, the debug code of every constraint, the verifier's code for the
//! constraint polynomial (with its evaluation map), the FRI polynomial and
//! the processed hints.
use vstd::prelude::*;
use crate::codegen::{
    arena_gen, build_code, calc_lookup, ctx_wf, dest_plain, fix_code, generated, gen_grows, pil_code_gen, pos_of,
    position_of, record_calc, CalcEntry, CodeBlock, CodeGenCtx, EvMapRef,
};
use crate::expression::{arena_view, arena_wf, BoundaryKind, ExprOp, ExprView, Expression};
use crate::fri_poly::ChallengeMapEntry;
use crate::pilout_info::{ConstraintInfo, HintFieldEntry, HintFieldValue, HintInfo, SymbolInfo, FIELD_EXTENSION};
use crate::print_expression::{lemma_lines_keep, lemma_print_ok_kept, print_expression, print_maps, print_ok, same_but_lines, PrintCtx};
use crate::stark_info::CodeOp;
use crate::types::{code_view, CodeEntry, CodeRef, RefType};

verus! {

/// Where the code of an intermediate polynomial's expression is stored.
#[derive(Debug, Clone, Copy)]
pub struct ExprDest {
    pub op: RefType,
    pub stage: usize,
    pub stage_id: usize,
    pub id: usize,
}

/// The code of one expression.
#[derive(Debug)]
pub struct ExpressionCodeEntry {
    pub tmp_used: usize,
    pub code: Vec<CodeEntry>,
    pub exp_id: usize,
    pub stage: usize,
    pub dest: Option<ExprDest>,
    pub line: String,
}

/// The debug code of one constraint.
#[derive(Debug)]
pub struct ConstraintCodeEntry {
    pub tmp_used: usize,
    pub code: Vec<CodeEntry>,
    pub boundary: BoundaryKind,
    pub line: Option<String>,
    pub im_pol: usize,
    pub stage: usize,
    pub offset_min: Option<u32>,
    pub offset_max: Option<u32>,
}

/// Kind of a processed hint field value.
#[derive(Debug, Clone, Copy, PartialEq, Eq, Structural)]
pub enum HintFieldOp {
    Tmp,
    Cm,
    Custom,
    Const,
    Challenge,
    Public,
    Airgroupvalue,
    Airvalue,
    Number,
    StringVal,
    Proofvalue,
}

/// The name of a hint field kind in the output files.
pub open spec fn hint_field_op_name(t: HintFieldOp) -> Seq<char> {
    match t {
        HintFieldOp::Tmp => "tmp"@,
        HintFieldOp::Cm => "cm"@,
        HintFieldOp::Custom => "custom"@,
        HintFieldOp::Const => "const"@,
        HintFieldOp::Challenge => "challenge"@,
        HintFieldOp::Public => "public"@,
        HintFieldOp::Airgroupvalue => "airgroupvalue"@,
        HintFieldOp::Airvalue => "airvalue"@,
        HintFieldOp::Number => "number"@,
        HintFieldOp::StringVal => "string"@,
        HintFieldOp::Proofvalue => "proofvalue"@,
    }
}

impl HintFieldOp {
    /// The name of the kind in the output files.
    pub fn as_str(&self) -> (s: &'static str)
        ensures
            s@ == hint_field_op_name(*self),
    {
        match self {
            HintFieldOp::Tmp => "tmp",
            HintFieldOp::Cm => "cm",
            HintFieldOp::Custom => "custom",
            HintFieldOp::Const => "const",
            HintFieldOp::Challenge => "challenge",
            HintFieldOp::Public => "public",
            HintFieldOp::Airgroupvalue => "airgroupvalue",
            HintFieldOp::Airvalue => "airvalue",
            HintFieldOp::Number => "number",
            HintFieldOp::StringVal => "string",
            HintFieldOp::Proofvalue => "proofvalue",
        }
    }
}

/// A processed hint field value.
#[derive(Debug)]
pub struct ProcessedHintField {
    pub op: HintFieldOp,
    pub id: Option<usize>,
    pub dim: Option<usize>,
    pub pos: Vec<usize>,
    pub stage: Option<usize>,
    pub stage_id: Option<usize>,
    pub value: Option<String>,
    pub row_offset: Option<i64>,
    pub row_offset_index: Option<isize>,
    pub commit_id: Option<usize>,
    pub airgroup_id: Option<usize>,
}

/// A processed hint field: its name and its values, flattened.
#[derive(Debug)]
pub struct ProcessedHintFieldEntry {
    pub name: String,
    pub values: Vec<ProcessedHintField>,
}

/// A processed hint.
#[derive(Debug)]
pub struct ProcessedHint {
    pub name: String,
    pub fields: Vec<ProcessedHintFieldEntry>,
}

/// The verifier's code.
#[derive(Debug)]
pub struct VerifierInfo {
    pub q_verifier: ExpressionCodeEntry,
    pub query_verifier: ExpressionCodeEntry,
}

/// The code of the expressions and constraints, and the hints.
#[derive(Debug)]
pub struct ExpressionsInfo {
    pub hints_info: Vec<ProcessedHint>,
    pub expressions_code: Vec<ExpressionCodeEntry>,
    pub constraints: Vec<ConstraintCodeEntry>,
}

/// Everything code generation produces for an AIR.
#[derive(Debug)]
pub struct PilCodeResult {
    pub expressions_info: ExpressionsInfo,
    pub verifier_info: VerifierInfo,
    /// The evaluation map built for the verifier.
    pub ev_map: Vec<EvMapRef>,
    /// Arena index of the FRI polynomial.
    pub fri_exp_id: usize,
    /// The challenges map, with the FRI challenges.
    pub challenges_map: Vec<ChallengeMapEntry>,
}

/// The parameters of an AIR that code generation needs.
#[derive(Debug)]
pub struct CodeGenParams {
    pub air_id: usize,
    pub airgroup_id: usize,
    pub n_stages: usize,
    pub c_exp_id: usize,
    pub fri_exp_id: usize,
    pub q_deg: usize,
    pub q_dim: usize,
    pub opening_points: Vec<i64>,
    pub cm_pols_map: Vec<SymbolInfo>,
    pub custom_commits_count: usize,
}

// ---------------------------------------------------------------------------
// Hints
// ---------------------------------------------------------------------------

/// The operations a hint value may have.
pub open spec fn hint_op_ok(op: ExprOp) -> bool {
    match op {
        ExprOp::Exp | ExprOp::Cm | ExprOp::Custom | ExprOp::Const | ExprOp::Challenge | ExprOp::Public
        | ExprOp::Airgroupvalue | ExprOp::Airvalue | ExprOp::Number | ExprOp::StringVal | ExprOp::Proofvalue => true,
        _ => false,
    }
}

/// The kind of the processed value of a hint expression.
pub open spec fn hint_kind(op: ExprOp) -> HintFieldOp {
    match op {
        ExprOp::Exp => HintFieldOp::Tmp,
        ExprOp::Cm => HintFieldOp::Cm,
        ExprOp::Custom => HintFieldOp::Custom,
        ExprOp::Const => HintFieldOp::Const,
        ExprOp::Challenge => HintFieldOp::Challenge,
        ExprOp::Public => HintFieldOp::Public,
        ExprOp::Airgroupvalue => HintFieldOp::Airgroupvalue,
        ExprOp::Airvalue => HintFieldOp::Airvalue,
        ExprOp::Number => HintFieldOp::Number,
        ExprOp::StringVal => HintFieldOp::StringVal,
        _ => HintFieldOp::Proofvalue,
    }
}

/// Index of an opening point, or -1.
pub open spec fn opening_index(ops: Seq<i64>, p: i64) -> int {
    if ops.contains(p) { pos_of(ops, p) } else { -1 }
}

/// `r` is the processed value of hint expression `e` at position `pos`.
pub open spec fn processed_ok(r: ProcessedHintField, e: ExprView, pos: Seq<usize>, ops: Seq<i64>, av: Seq<ExprView>) -> bool {
    &&& r.op == hint_kind(e.op)
    &&& r.pos@ == pos
    &&& if e.op == ExprOp::Exp {
        let t = match e.id {
            Some(x) => x,
            None => 0,
        };
        &&& r.id == Some(t)
        &&& r.dim == Some(if t < av.len() { av[t as int].dim } else if e.dim >= 1 { e.dim } else { 1 })
        &&& r.stage is None && r.stage_id is None && r.value is None && r.row_offset is None
        &&& r.row_offset_index is None && r.commit_id is None && r.airgroup_id is None
    } else if e.op == ExprOp::Cm || e.op == ExprOp::Custom || e.op == ExprOp::Const {
        let ro = match e.row_offset {
            Some(x) => x,
            None => 0,
        };
        &&& r.id == e.id
        &&& r.dim == Some(e.dim)
        &&& r.stage == Some(e.stage)
        &&& r.stage_id == e.stage_id
        &&& r.value is None
        &&& r.row_offset == e.row_offset
        &&& r.row_offset_index == Some(opening_index(ops, ro) as isize)
        &&& r.commit_id == e.commit_id
        &&& r.airgroup_id is None
    } else {
        generic_fields_ok(r, e)
    }
}

/// `r` copies the fields of hint expression `e` as they are.
pub open spec fn generic_fields_ok(r: ProcessedHintField, e: ExprView) -> bool {
    &&& r.id == e.id
    &&& r.dim == Some(e.dim)
    &&& r.stage == Some(e.stage)
    &&& r.stage_id == e.stage_id
    &&& (match r.value {
        Some(v) => e.value == Some(v@),
        None => e.value is None,
    })
    &&& r.row_offset is None
    &&& r.row_offset_index is None
    &&& r.commit_id is None
    &&& r.airgroup_id == e.airgroup_id
}

/// `e` reads a column.
pub open spec fn is_column_op(op: ExprOp) -> bool {
    op == ExprOp::Cm || op == ExprOp::Custom || op == ExprOp::Const
}

/// `r` is the processed value of hint expression `e`; for a global hint a
/// column is copied as it is.
pub open spec fn processed_in(global: bool, r: ProcessedHintField, e: ExprView, pos: Seq<usize>, ops: Seq<i64>, av: Seq<ExprView>) -> bool {
    if global && is_column_op(e.op) {
        &&& r.op == hint_kind(e.op)
        &&& r.pos@ == pos
        &&& generic_fields_ok(r, e)
    } else {
        processed_ok(r, e, pos, ops, av)
    }
}

/// The leaves of nested hint values, with their positions, depth first.
pub open spec fn hint_leaves(values: Seq<HintFieldValue>, pos: Seq<usize>) -> Seq<(ExprView, Seq<usize>)>
    decreases values,
{
    if values.len() == 0 {
        Seq::empty()
    } else {
        let k = values.len() - 1;
        hint_leaves(values.drop_last(), pos) + match values[k] {
            HintFieldValue::Single(e) => seq![(e@, pos.push(k as usize))],
            HintFieldValue::Array(a) => hint_leaves(a@, pos.push(k as usize)),
        }
    }
}

/// Every leaf of the hint values is an expression of an allowed kind.
pub open spec fn hint_values_ok(values: Seq<HintFieldValue>) -> bool
    decreases values,
{
    forall|k: int|
        0 <= k < values.len() ==> match #[trigger] values[k] {
            HintFieldValue::Single(e) => hint_op_ok(e.op),
            HintFieldValue::Array(a) => hint_values_ok(a@),
        }
}

/// What a hint step needs of the arena: it is well formed, and printable
/// when there is a printing context.
pub open spec fn hint_arena_ok(av: Seq<ExprView>, print_ctx: Option<&PrintCtx>) -> bool {
    match print_ctx {
        Some(c) => print_ok(print_maps(c), av, true),
        None => true,
    }
}

/// Processes one hint value: an `exp` becomes a temporary (printing the
/// expression when there is a printing context), a column keeps its row
/// offset and the index of that offset among the opening points, any other
/// value is copied.
pub fn process_single_hint_field(
    expr: &Expression,
    params: &CodeGenParams,
    expressions: &mut Vec<Expression>,
    pos: &[usize],
    print_ctx: Option<&PrintCtx>,
) -> (r: ProcessedHintField)
    requires
        hint_op_ok(expr.op),
        params.opening_points@.len() <= isize::MAX,
        hint_arena_ok(arena_view(old(expressions)@), print_ctx),
    ensures
        processed_ok(r, expr@, pos@, params.opening_points@, arena_view(old(expressions)@)),
        same_but_lines(arena_view(old(expressions)@), arena_view(final(expressions)@)),
        print_ctx is None ==> final(expressions)@ == old(expressions)@,
{
    single_hint_field_in(expr, params, expressions, pos, print_ctx, false)
}

/// Processes one hint value, of a global hint when `global`.
pub(crate) fn single_hint_field_in(
    expr: &Expression,
    params: &CodeGenParams,
    expressions: &mut Vec<Expression>,
    pos: &[usize],
    print_ctx: Option<&PrintCtx>,
    global: bool,
) -> (r: ProcessedHintField)
    requires
        hint_op_ok(expr.op),
        params.opening_points@.len() <= isize::MAX,
        hint_arena_ok(arena_view(old(expressions)@), print_ctx),
    ensures
        processed_in(global, r, expr@, pos@, params.opening_points@, arena_view(old(expressions)@)),
        same_but_lines(arena_view(old(expressions)@), arena_view(final(expressions)@)),
        print_ctx is None ==> final(expressions)@ == old(expressions)@,
{
    let ghost av = arena_view(expressions@);
    let mut p: Vec<usize> = Vec::new();
    let mut k: usize = 0;
    while k < pos.len()
        invariant
            k <= pos@.len(),
            p@ == pos@.subrange(0, k as int),
        decreases pos.len() - k,
    {
        p.push(pos[k]);
        k = k + 1;
        proof {
            assert(p@ =~= pos@.subrange(0, k as int));
        }
    }
    proof {
        assert(p@ =~= pos@);
    }
    match expr.op {
        ExprOp::Exp => {
            let ref_id = match expr.id {
                Some(x) => x,
                None => 0,
            };
            let dim = if ref_id < expressions.len() {
                expressions[ref_id].dim
            } else if expr.dim >= 1 {
                expr.dim
            } else {
                1
            };
            proof {
                if ref_id < av.len() {
                    assert(av[ref_id as int] == expressions@[ref_id as int]@);
                }
            }
            match print_ctx {
                Some(ctx) => {
                    if ref_id < expressions.len() {
                        print_expression(ctx, expressions, ref_id, false);
                    }
                },
                None => {},
            }
            ProcessedHintField {
                op: HintFieldOp::Tmp,
                id: Some(ref_id),
                dim: Some(dim),
                pos: p,
                stage: None,
                stage_id: None,
                value: None,
                row_offset: None,
                row_offset_index: None,
                commit_id: None,
                airgroup_id: None,
            }
        },
        _ => {
            let column = match expr.op {
                ExprOp::Cm | ExprOp::Custom | ExprOp::Const => true,
                _ => false,
            };
            if column && !global {
                let ro = match expr.row_offset {
                    Some(x) => x,
                    None => 0,
                };
                let idx = position_of(params.opening_points.as_slice(), ro);
                let has = vec_contains(&params.opening_points, ro);
                let index: isize = if has { idx as isize } else { -1 };
                let op = match expr.op {
                    ExprOp::Cm => HintFieldOp::Cm,
                    ExprOp::Custom => HintFieldOp::Custom,
                    _ => HintFieldOp::Const,
                };
                proof {
                    if has {
                        lemma_pos_in_range(params.opening_points@, ro, 0);
                    }
                }
                ProcessedHintField {
                    op,
                    id: expr.id,
                    dim: Some(expr.dim),
                    pos: p,
                    stage: Some(expr.stage),
                    stage_id: expr.stage_id,
                    value: None,
                    row_offset: expr.row_offset,
                    row_offset_index: Some(index),
                    commit_id: expr.commit_id,
                    airgroup_id: None,
                }
            } else {
                let op = match expr.op {
                    ExprOp::Cm => HintFieldOp::Cm,
                    ExprOp::Custom => HintFieldOp::Custom,
                    ExprOp::Const => HintFieldOp::Const,
                    ExprOp::Challenge => HintFieldOp::Challenge,
                    ExprOp::Public => HintFieldOp::Public,
                    ExprOp::Airgroupvalue => HintFieldOp::Airgroupvalue,
                    ExprOp::Airvalue => HintFieldOp::Airvalue,
                    ExprOp::Number => HintFieldOp::Number,
                    ExprOp::StringVal => HintFieldOp::StringVal,
                    _ => HintFieldOp::Proofvalue,
                };
                ProcessedHintField {
                    op,
                    id: expr.id,
                    dim: Some(expr.dim),
                    pos: p,
                    stage: Some(expr.stage),
                    stage_id: expr.stage_id,
                    value: match &expr.value {
                        Some(v) => Some(v.clone()),
                        None => None,
                    },
                    row_offset: None,
                    row_offset_index: None,
                    commit_id: None,
                    airgroup_id: expr.airgroup_id,
                }
            }
        },
    }
}

/// `x` occurs in `v`.
pub fn vec_contains(v: &Vec<i64>, x: i64) -> (b: bool)
    ensures
        b == v@.contains(x),
{
    let mut i: usize = 0;
    while i < v.len()
        invariant
            i <= v@.len(),
            forall|t: int| 0 <= t < i ==> v@[t] != x,
        decreases v.len() - i,
    {
        if v[i] == x {
            return true;
        }
        i = i + 1;
    }
    false
}

proof fn lemma_pos_in_range(s: Seq<i64>, x: i64, i: int)
    requires
        0 <= i,
        exists|t: int| i <= t < s.len() && s[t] == x,
    ensures
        i <= crate::codegen::pos_from(s, x, i) < s.len(),
        s[crate::codegen::pos_from(s, x, i)] == x,
    decreases s.len() - i,
{
    if s[i] != x {
        let t = choose|t: int| i <= t < s.len() && s[t] == x;
        assert(t != i);
        lemma_pos_in_range(s, x, i + 1);
    }
}


proof fn lemma_processed_same(global: bool, r: ProcessedHintField, e: ExprView, pos: Seq<usize>, ops: Seq<i64>, a: Seq<ExprView>, b: Seq<ExprView>)
    requires
        processed_in(global, r, e, pos, ops, b),
        same_but_lines(a, b),
    ensures
        processed_in(global, r, e, pos, ops, a),
{
    if e.op == ExprOp::Exp {
        let t = match e.id {
            Some(x) => x,
            None => 0,
        };
        if t < a.len() {
            assert(b[t as int] == crate::print_expression::with_line_of(a[t as int], b[t as int]));
        }
    }
}

proof fn lemma_same_lines_trans(a: Seq<ExprView>, b: Seq<ExprView>, c: Seq<ExprView>)
    requires
        same_but_lines(a, b),
        same_but_lines(b, c),
    ensures
        same_but_lines(a, c),
{
    assert forall|i: int| 0 <= i < a.len() implies #[trigger] c[i] == crate::print_expression::with_line_of(a[i], c[i]) by {
        assert(b[i] == crate::print_expression::with_line_of(a[i], b[i]));
        assert(c[i] == crate::print_expression::with_line_of(b[i], c[i]));
    }
}

/// Flattens nested hint values, depth first, each leaf with its position.
pub fn process_hint_field_values(
    values: &[HintFieldValue],
    params: &CodeGenParams,
    expressions: &mut Vec<Expression>,
    pos: &[usize],
    print_ctx: Option<&PrintCtx>,
) -> (r: Vec<ProcessedHintField>)
    requires
        hint_values_ok(values@),
        params.opening_points@.len() <= isize::MAX,
        hint_arena_ok(arena_view(old(expressions)@), print_ctx),
    ensures
        r@.len() == hint_leaves(values@, pos@).len(),
        forall|k: int|
            0 <= k < r@.len() ==> processed_ok(
                #[trigger] r@[k],
                hint_leaves(values@, pos@)[k].0,
                hint_leaves(values@, pos@)[k].1,
                params.opening_points@,
                arena_view(old(expressions)@),
            ),
        same_but_lines(arena_view(old(expressions)@), arena_view(final(expressions)@)),
        print_ctx is None ==> arena_view(final(expressions)@) == arena_view(old(expressions)@),
{
    hint_values_in(values, params, expressions, pos, print_ctx, false)
}

/// Flattens nested hint values, of a global hint when `global`.
pub(crate) fn hint_values_in(
    values: &[HintFieldValue],
    params: &CodeGenParams,
    expressions: &mut Vec<Expression>,
    pos: &[usize],
    print_ctx: Option<&PrintCtx>,
    global: bool,
) -> (r: Vec<ProcessedHintField>)
    requires
        hint_values_ok(values@),
        params.opening_points@.len() <= isize::MAX,
        hint_arena_ok(arena_view(old(expressions)@), print_ctx),
    ensures
        r@.len() == hint_leaves(values@, pos@).len(),
        forall|k: int|
            0 <= k < r@.len() ==> processed_in(global, 
                #[trigger] r@[k],
                hint_leaves(values@, pos@)[k].0,
                hint_leaves(values@, pos@)[k].1,
                params.opening_points@,
                arena_view(old(expressions)@),
            ),
        same_but_lines(arena_view(old(expressions)@), arena_view(final(expressions)@)),
        print_ctx is None ==> arena_view(final(expressions)@) == arena_view(old(expressions)@),
    decreases values@,
{
    let ghost av = arena_view(expressions@);
    let mut result: Vec<ProcessedHintField> = Vec::new();
    let n = values.len();
    let mut j: usize = 0;
    proof {
        assert(values@.subrange(0, 0) =~= Seq::<HintFieldValue>::empty());
    }
    while j < n
        invariant
            n == values@.len(),
            j <= n,
            hint_values_ok(values@),
            params.opening_points@.len() <= isize::MAX,
            hint_arena_ok(arena_view(expressions@), print_ctx),
            same_but_lines(av, arena_view(expressions@)),
            print_ctx is None ==> arena_view(expressions@) == av,
            result@.len() == hint_leaves(values@.subrange(0, j as int), pos@).len(),
            forall|k: int|
                0 <= k < result@.len() ==> processed_in(global, 
                    #[trigger] result@[k],
                    hint_leaves(values@.subrange(0, j as int), pos@)[k].0,
                    hint_leaves(values@.subrange(0, j as int), pos@)[k].1,
                    params.opening_points@,
                    av,
                ),
        decreases n - j,
    {
        let ghost cur = arena_view(expressions@);
        let ghost before = result@;
        let ghost pre = hint_leaves(values@.subrange(0, j as int), pos@);
        let mut current_pos: Vec<usize> = Vec::new();
        let mut t: usize = 0;
        while t < pos.len()
            invariant
                t <= pos@.len(),
                current_pos@ == pos@.subrange(0, t as int),
            decreases pos.len() - t,
        {
            current_pos.push(pos[t]);
            t = t + 1;
            proof {
                assert(current_pos@ =~= pos@.subrange(0, t as int));
            }
        }
        current_pos.push(j);
        proof {
            assert(current_pos@ =~= pos@.push(j));
            assert(values@.subrange(0, j as int + 1).drop_last() =~= values@.subrange(0, j as int));
            assert(hint_values_ok(values@) ==> match values@[j as int] {
                HintFieldValue::Single(e) => hint_op_ok(e.op),
                HintFieldValue::Array(a) => hint_values_ok(a@),
            });
        }
        match &values[j] {
            HintFieldValue::Array(arr) => {
                assert(decreases_to!(values@ => values@[j as int]));
                let inner = hint_values_in(arr.as_slice(), params, expressions, current_pos.as_slice(), print_ctx, global);
                let ghost leaves = hint_leaves(arr@, pos@.push(j));
                let ghost after = arena_view(expressions@);
                proof {
                    lemma_same_lines_trans(av, cur, after);
                    match print_ctx {
                        Some(c) => lemma_print_ok_kept(print_maps(c), cur, after, true),
                        None => {},
                    }
                }
                let mut q: usize = 0;
                let mut inner = inner;
                let m = inner.len();
                let ghost inner0 = inner@;
                let mut moved: Vec<ProcessedHintField> = Vec::new();
                while q < m
                    invariant
                        m == inner0.len(),
                        q <= m,
                        inner@ == inner0.subrange(q as int, m as int),
                        moved@ == inner0.subrange(0, q as int),
                    decreases m - q,
                {
                    let x = inner.remove(0);
                    moved.push(x);
                    q = q + 1;
                    proof {
                        assert(inner@ =~= inner0.subrange(q as int, m as int));
                        assert(moved@ =~= inner0.subrange(0, q as int));
                    }
                }
                proof {
                    assert(moved@ =~= inner0);
                }
                result.append(&mut moved);
                proof {
                    assert(hint_leaves(values@.subrange(0, j as int + 1), pos@) == pre + leaves);
                    assert forall|k: int| 0 <= k < result@.len() implies processed_in(global, 
                        #[trigger] result@[k],
                        hint_leaves(values@.subrange(0, j as int + 1), pos@)[k].0,
                        hint_leaves(values@.subrange(0, j as int + 1), pos@)[k].1,
                        params.opening_points@,
                        av,
                    ) by {
                        if k < before.len() {
                            assert(result@[k] == before[k]);
                        } else {
                            assert(result@[k] == inner0[k - before.len()]);
                            lemma_processed_same(global, inner0[k - before.len()], leaves[k - before.len()].0, leaves[k - before.len()].1, params.opening_points@, av, cur);
                        }
                    }
                }
            },
            HintFieldValue::Single(e) => {
                let x = single_hint_field_in(e, params, expressions, current_pos.as_slice(), print_ctx, global);
                let ghost after = arena_view(expressions@);
                proof {
                    lemma_same_lines_trans(av, cur, after);
                    match print_ctx {
                        Some(c) => lemma_print_ok_kept(print_maps(c), cur, after, true),
                        None => {},
                    }
                    lemma_processed_same(global, x, e@, pos@.push(j), params.opening_points@, av, cur);
                }
                result.push(x);
                proof {
                    assert(hint_leaves(values@.subrange(0, j as int + 1), pos@) == pre + seq![(e@, pos@.push(j))]);
                    assert forall|k: int| 0 <= k < result@.len() implies processed_in(global, 
                        #[trigger] result@[k],
                        hint_leaves(values@.subrange(0, j as int + 1), pos@)[k].0,
                        hint_leaves(values@.subrange(0, j as int + 1), pos@)[k].1,
                        params.opening_points@,
                        av,
                    ) by {
                        if k < before.len() {
                            assert(result@[k] == before[k]);
                        }
                    }
                }
            },
        }
        j = j + 1;
    }
    proof {
        assert(values@.subrange(0, n as int) =~= values@);
    }
    result
}

/// The processed values of a field (of a global hint when `global`): its leaves, the first one with an
/// empty position when the field has no lengths.
pub open spec fn field_in(global: bool, f: ProcessedHintFieldEntry, h: HintFieldEntry, ops: Seq<i64>, av: Seq<ExprView>) -> bool {
    let leaves = hint_leaves(h.values@, Seq::empty());
    &&& f.name@ == h.name@
    &&& f.values@.len() == leaves.len()
    &&& forall|k: int|
        0 <= k < leaves.len() ==> processed_in(global, 
            #[trigger] f.values@[k],
            leaves[k].0,
            if k == 0 && h.lengths is None { Seq::empty() } else { leaves[k].1 },
            ops,
            av,
        )
}

/// The processed values of a hint field: its leaves, the first one with an
/// empty position when the field has no lengths.
pub open spec fn field_ok(f: ProcessedHintFieldEntry, h: HintFieldEntry, ops: Seq<i64>, av: Seq<ExprView>) -> bool {
    field_in(false, f, h, ops, av)
}

/// Every field of every hint has values of allowed kinds.
pub open spec fn hints_ok(hints: Seq<HintInfo>) -> bool {
    forall|i: int, f: int|
        0 <= i < hints.len() && 0 <= f < hints[i].fields@.len() ==> hint_values_ok(#[trigger] hints[i].fields@[f].values@)
}

/// Processes every field of every hint.
pub fn add_hints_info(
    params: &CodeGenParams,
    expressions: &mut Vec<Expression>,
    hints: &[HintInfo],
    global: bool,
    print_ctx: Option<&PrintCtx>,
) -> (r: Vec<ProcessedHint>)
    requires
        hints_ok(hints@),
        params.opening_points@.len() <= isize::MAX,
        hint_arena_ok(arena_view(old(expressions)@), print_ctx),
    ensures
        r@.len() == hints@.len(),
        forall|i: int|
            0 <= i < r@.len() ==> (#[trigger] r@[i]).name@ == hints@[i].name@ && r@[i].fields@.len() == hints@[i].fields@.len()
                && forall|f: int|
                0 <= f < r@[i].fields@.len() ==> field_ok(
                    #[trigger] r@[i].fields@[f],
                    hints@[i].fields@[f],
                    params.opening_points@,
                    arena_view(old(expressions)@),
                ),
        same_but_lines(arena_view(old(expressions)@), arena_view(final(expressions)@)),
        print_ctx is None ==> arena_view(final(expressions)@) == arena_view(old(expressions)@),
{
    hints_in(params, expressions, hints, print_ctx, false)
}

/// Processes every field of every hint (global hints when `global`).
pub(crate) fn hints_in(
    params: &CodeGenParams,
    expressions: &mut Vec<Expression>,
    hints: &[HintInfo],
    print_ctx: Option<&PrintCtx>,
    global: bool,
) -> (r: Vec<ProcessedHint>)
    requires
        hints_ok(hints@),
        params.opening_points@.len() <= isize::MAX,
        hint_arena_ok(arena_view(old(expressions)@), print_ctx),
    ensures
        r@.len() == hints@.len(),
        forall|i: int|
            0 <= i < r@.len() ==> (#[trigger] r@[i]).name@ == hints@[i].name@ && r@[i].fields@.len() == hints@[i].fields@.len()
                && forall|f: int|
                0 <= f < r@[i].fields@.len() ==> field_in(global, 
                    #[trigger] r@[i].fields@[f],
                    hints@[i].fields@[f],
                    params.opening_points@,
                    arena_view(old(expressions)@),
                ),
        same_but_lines(arena_view(old(expressions)@), arena_view(final(expressions)@)),
        print_ctx is None ==> arena_view(final(expressions)@) == arena_view(old(expressions)@),
{
    let ghost av = arena_view(expressions@);
    let mut result: Vec<ProcessedHint> = Vec::new();
    let mut i: usize = 0;
    while i < hints.len()
        invariant
            i <= hints@.len(),
            hints_ok(hints@),
            params.opening_points@.len() <= isize::MAX,
            hint_arena_ok(arena_view(expressions@), print_ctx),
            same_but_lines(av, arena_view(expressions@)),
            print_ctx is None ==> arena_view(expressions@) == av,
            result@.len() == i,
            forall|t: int|
                0 <= t < i ==> (#[trigger] result@[t]).name@ == hints@[t].name@ && result@[t].fields@.len()
                    == hints@[t].fields@.len() && forall|f: int|
                    0 <= f < result@[t].fields@.len() ==> field_in(global, 
                        #[trigger] result@[t].fields@[f],
                        hints@[t].fields@[f],
                        params.opening_points@,
                        av,
                    ),
        decreases hints.len() - i,
    {
        let hint = &hints[i];
        let mut fields: Vec<ProcessedHintFieldEntry> = Vec::new();
        let mut f: usize = 0;
        while f < hint.fields.len()
            invariant
                i < hints@.len(),
                *hint == hints@[i as int],
                f <= hint.fields@.len(),
                hints_ok(hints@),
                params.opening_points@.len() <= isize::MAX,
                hint_arena_ok(arena_view(expressions@), print_ctx),
                same_but_lines(av, arena_view(expressions@)),
                print_ctx is None ==> arena_view(expressions@) == av,
                fields@.len() == f,
                forall|t: int| 0 <= t < f ==> field_in(global, #[trigger] fields@[t], hint.fields@[t], params.opening_points@, av),
            decreases hint.fields.len() - f,
        {
            let field = &hint.fields[f];
            let ghost cur = arena_view(expressions@);
            proof {
                assert(hint_values_ok(hints@[i as int].fields@[f as int].values@));
            }
            let empty: Vec<usize> = Vec::new();
            let mut flat = hint_values_in(field.values.as_slice(), params, expressions, empty.as_slice(), print_ctx, global);
            let ghost after = arena_view(expressions@);
            let ghost leaves = hint_leaves(field.values@, Seq::empty());
            proof {
                assert(empty@ =~= Seq::<usize>::empty());
                lemma_same_lines_trans(av, cur, after);
                match print_ctx {
                    Some(c) => lemma_print_ok_kept(print_maps(c), cur, after, true),
                    None => {},
                }
                assert forall|k: int| 0 <= k < flat@.len() implies processed_in(global, 
                    #[trigger] flat@[k],
                    leaves[k].0,
                    leaves[k].1,
                    params.opening_points@,
                    av,
                ) by {
                    lemma_processed_same(global, flat@[k], leaves[k].0, leaves[k].1, params.opening_points@, av, cur);
                }
            }
            let no_lengths = field.lengths.is_none();
            if no_lengths && flat.len() > 0 {
                let ghost flat0 = flat@;
                let mut first = flat.remove(0);
                first.pos = Vec::new();
                flat.insert(0, first);
                proof {
                    assert forall|k: int| 0 <= k < flat@.len() implies processed_in(global, 
                        #[trigger] flat@[k],
                        leaves[k].0,
                        if k == 0 && field.lengths is None { Seq::empty() } else { leaves[k].1 },
                        params.opening_points@,
                        av,
                    ) by {
                        if k > 0 {
                            assert(flat@[k] == flat0[k]);
                        } else {
                            assert(first.pos@ =~= Seq::<usize>::empty());
                        }
                    }
                }
            }
            let entry = ProcessedHintFieldEntry { name: field.name.clone(), values: flat };
            fields.push(entry);
            f = f + 1;
        }
        result.push(ProcessedHint { name: hint.name.clone(), fields });
        i = i + 1;
    }
    result
}


// ---------------------------------------------------------------------------
// Marking intermediate polynomials as generated
// ---------------------------------------------------------------------------

/// Some intermediate-polynomial symbol stands for entry `id`, and `p` is an
/// opening point.
pub open spec fn premarked(syms: Seq<SymbolInfo>, ops: Seq<i64>, id: usize, p: i64) -> bool {
    &&& exists|k: int| 0 <= k < syms.len() && (#[trigger] syms[k]).im_pol && syms[k].exp_id == Some(id)
    &&& ops.contains(p)
}

/// Records every intermediate polynomial's expression, at every opening
/// point, as a committed column.
fn premark_im(ctx: &mut CodeGenCtx, symbols: &[SymbolInfo], opening_points: &Vec<i64>)
    ensures
        ctx_wf(*old(ctx), symbols@.len() as int) ==> ctx_wf(*final(ctx), symbols@.len() as int),
        crate::codegen::same_config(*old(ctx), *final(ctx)),
        final(ctx).code@ == old(ctx).code@,
        final(ctx).tmp_used == old(ctx).tmp_used,
        forall|id: usize, p: i64|
            #![trigger calc_lookup(final(ctx).calculated@, id, p)]
            calc_lookup(final(ctx).calculated@, id, p) == if premarked(symbols@, opening_points@, id, p) {
                Some(CalcEntry { cm: true, tmp_id: None })
            } else {
                calc_lookup(old(ctx).calculated@, id, p)
            },
{
    let ghost c0 = old(ctx).calculated@;
    let mut i: usize = 0;
    while i < symbols.len()
        invariant
            i <= symbols@.len(),
            crate::codegen::same_config(*old(ctx), *ctx),
            ctx.code@ == old(ctx).code@,
            ctx.tmp_used == old(ctx).tmp_used,
            forall|id: usize, p: i64|
                #![trigger calc_lookup(ctx.calculated@, id, p)]
                calc_lookup(ctx.calculated@, id, p) == if premarked(symbols@.subrange(0, i as int), opening_points@, id, p) {
                    Some(CalcEntry { cm: true, tmp_id: None })
                } else {
                    calc_lookup(c0, id, p)
                },
        decreases symbols.len() - i,
    {
        let s = &symbols[i];
        let ghost before = ctx.calculated@;
        if s.im_pol && s.exp_id.is_some() {
            let exp_id = match s.exp_id {
                Some(x) => x,
                None => 0,
            };
            let mut k: usize = 0;
            while k < opening_points.len()
                invariant
                    k <= opening_points@.len(),
                    i < symbols@.len(),
                    *s == symbols@[i as int],
                    s.im_pol,
                    s.exp_id == Some(exp_id),
                    crate::codegen::same_config(*old(ctx), *ctx),
                    ctx.code@ == old(ctx).code@,
                    ctx.tmp_used == old(ctx).tmp_used,
                    forall|id: usize, p: i64|
                        #![trigger calc_lookup(ctx.calculated@, id, p)]
                        calc_lookup(ctx.calculated@, id, p) == if id == exp_id && opening_points@.subrange(0, k as int).contains(p) {
                            Some(CalcEntry { cm: true, tmp_id: None })
                        } else {
                            calc_lookup(before, id, p)
                        },
                decreases opening_points.len() - k,
            {
                let op = opening_points[k];
                record_calc(&mut ctx.calculated, exp_id, op, CalcEntry { cm: true, tmp_id: None });
                proof {
                    assert forall|id: usize, p: i64|
                        #![trigger calc_lookup(ctx.calculated@, id, p)]
                        calc_lookup(ctx.calculated@, id, p) == if id == exp_id && opening_points@.subrange(0, k + 1).contains(p) {
                            Some(CalcEntry { cm: true, tmp_id: None })
                        } else {
                            calc_lookup(before, id, p)
                        } by {
                        if id == exp_id && opening_points@.subrange(0, k + 1).contains(p) && !(p == op) {
                            let t = choose|t: int| 0 <= t < k + 1 && #[trigger] opening_points@.subrange(0, k + 1)[t] == p;
                            assert(opening_points@.subrange(0, k as int)[t] == p);
                        }
                        if opening_points@.subrange(0, k as int).contains(p) {
                            let t = choose|t: int| 0 <= t < k && #[trigger] opening_points@.subrange(0, k as int)[t] == p;
                            assert(opening_points@.subrange(0, k + 1)[t] == p);
                        }
                        if p == op {
                            assert(opening_points@.subrange(0, k + 1)[k as int] == p);
                        }
                    }
                }
                k = k + 1;
            }
            proof {
                assert(opening_points@.subrange(0, opening_points@.len() as int) =~= opening_points@);
            }
        }
        proof {
            let pre = symbols@.subrange(0, i as int);
            let pre1 = symbols@.subrange(0, i as int + 1);
            assert forall|id: usize, p: i64|
                #![trigger calc_lookup(ctx.calculated@, id, p)]
                calc_lookup(ctx.calculated@, id, p) == if premarked(pre1, opening_points@, id, p) {
                    Some(CalcEntry { cm: true, tmp_id: None })
                } else {
                    calc_lookup(c0, id, p)
                } by {
                let here = s.im_pol && s.exp_id == Some(id);
                if premarked(pre1, opening_points@, id, p) {
                    let k = choose|k: int| 0 <= k < pre1.len() && (#[trigger] pre1[k]).im_pol && pre1[k].exp_id == Some(id);
                    if k < i {
                        assert(pre[k] == pre1[k]);
                        assert(premarked(pre, opening_points@, id, p));
                    } else {
                        assert(here);
                    }
                } else {
                    if premarked(pre, opening_points@, id, p) {
                        let k = choose|k: int| 0 <= k < pre.len() && (#[trigger] pre[k]).im_pol && pre[k].exp_id == Some(id);
                        assert(pre1[k] == pre[k]);
                    }
                    if here && opening_points@.contains(p) {
                        assert(pre1[i as int] == *s);
                    }
                }
            }
        }
        i = i + 1;
    }
    proof {
        assert(symbols@.subrange(0, symbols@.len() as int) =~= symbols@);
    }
}

// ---------------------------------------------------------------------------
// Expressions and constraints
// ---------------------------------------------------------------------------

proof fn lemma_fix_code_len(m: Seq<(i64, usize, usize)>, t: usize, es: Seq<crate::types::EntryView>)
    ensures
        fix_code(m, t, es).2.len() == es.len(),
    decreases es.len(),
{
    if es.len() > 0 {
        lemma_fix_code_len(m, t, es.drop_last());
    }
}

/// Entry `j` gets code: it is kept, an intermediate polynomial, the
/// constraint polynomial or the FRI polynomial.
pub open spec fn selected(av: Seq<ExprView>, c: usize, f: usize, j: int) -> bool {
    av[j].keep == Some(true) || av[j].im_pol || j == c || j == f
}

/// The entries that get code, in order.
pub open spec fn selected_ids(av: Seq<ExprView>, c: usize, f: usize, n: int) -> Seq<usize>
    decreases n,
{
    if n <= 0 {
        Seq::empty()
    } else {
        let p = selected_ids(av, c, f, n - 1);
        if selected(av, c, f, n - 1) { p.push((n - 1) as usize) } else { p }
    }
}

/// Index of the first symbol that stands for entry `j`, from position `i` on.
pub open spec fn exp_symbol_from(syms: Seq<SymbolInfo>, j: usize, i: int) -> Option<int>
    decreases syms.len() - i,
{
    if i < 0 || i >= syms.len() {
        None
    } else if syms[i].exp_id == Some(j) {
        Some(i)
    } else {
        exp_symbol_from(syms, j, i + 1)
    }
}

proof fn lemma_exp_symbol_range(syms: Seq<SymbolInfo>, j: usize, i: int)
    ensures
        exp_symbol_from(syms, j, i) matches Some(k) ==> 0 <= k < syms.len(),
    decreases syms.len() - i,
{
    if 0 <= i < syms.len() {
        lemma_exp_symbol_range(syms, j, i + 1);
    }
}

fn find_exp_symbol(symbols: &[SymbolInfo], j: usize) -> (r: Option<usize>)
    ensures
        match r {
            Some(k) => exp_symbol_from(symbols@, j, 0) == Some(k as int),
            None => exp_symbol_from(symbols@, j, 0) is None,
        },
{
    let mut i: usize = 0;
    while i < symbols.len()
        invariant
            i <= symbols@.len(),
            exp_symbol_from(symbols@, j, 0) == exp_symbol_from(symbols@, j, i as int),
        decreases symbols.len() - i,
    {
        if symbols[i].exp_id == Some(j) {
            return Some(i);
        }
        i = i + 1;
    }
    None
}

/// The destination of an intermediate polynomial's code: the column of the
/// first symbol that stands for it.
pub open spec fn expr_dest(syms: Seq<SymbolInfo>, e: ExprView, j: usize) -> Option<(usize, usize, usize)> {
    if e.im_pol {
        match exp_symbol_from(syms, j, 0) {
            Some(k) => Some((
                match syms[k].stage {
                    Some(x) => x,
                    None => 0,
                },
                match syms[k].stage_id {
                    Some(x) => x,
                    None => 0,
                },
                match syms[k].pol_id {
                    Some(x) => x,
                    None => 0,
                },
            )),
            None => None,
        }
    } else {
        None
    }
}

/// `r` is the code entry of arena entry `j`.
pub open spec fn expr_entry_ok(r: ExpressionCodeEntry, av: Seq<ExprView>, params: CodeGenParams, syms: Seq<SymbolInfo>, j: usize) -> bool {
    let e = av[j as int];
    &&& r.exp_id == j
    &&& r.stage == if e.stage > params.n_stages + 1 { 0 } else { e.stage }
    &&& r.line@ == match e.line {
        Some(l) => l,
        None => Seq::empty(),
    }
    &&& (match r.dest {
        Some(d) => d.op == RefType::Cm && expr_dest(syms, e, j) == Some((d.stage, d.stage_id, d.id)),
        None => expr_dest(syms, e, j) is None,
    })
    &&& (j != params.c_exp_id || !premarked(syms, params.opening_points@, j, 0)) ==> r.code@.len() > 0
    &&& r.code@.len() > 0 && j == params.fri_exp_id ==> r.code@.last().dest@ == crate::types::plain_ref(RefType::F, 0, FIELD_EXTENSION)
    &&& r.code@.len() > 0 && j == params.c_exp_id && j != params.fri_exp_id ==> r.code@.last().dest@ == crate::types::plain_ref(
        RefType::Q,
        0,
        params.q_dim,
    )
}

/// Replaces the destination of the last line of `code` with `d`.
fn set_last_dest(code: &mut Vec<CodeEntry>, d: CodeRef)
    requires
        old(code)@.len() > 0,
    ensures
        final(code)@.len() == old(code)@.len(),
        final(code)@.last().dest@ == d@,
{
    let last = code.len() - 1;
    let op = code[last].op;
    let src = crate::types::copy_refs(&code[last].src);
    code.set(last, CodeEntry { op, dest: d, src });
}

/// The code of every entry that needs one: kept entries, intermediate
/// polynomials, the constraint polynomial (in the extended domain, with the
/// intermediate polynomials read from their columns, its last line writing
/// the quotient) and the FRI polynomial (its last line writing `f`).
pub fn generate_expressions_code(params: &CodeGenParams, symbols: &[SymbolInfo], expressions: &[Expression]) -> (r: Vec<ExpressionCodeEntry>)
    requires
        params.n_stages < usize::MAX,
        arena_wf(arena_view(expressions@)),
        arena_gen(arena_view(expressions@)),
    ensures
        ({
            let av = arena_view(expressions@);
            let ids = selected_ids(av, params.c_exp_id, params.fri_exp_id, av.len() as int);
            &&& r@.len() == ids.len()
            &&& forall|k: int| 0 <= k < r@.len() ==> expr_entry_ok(#[trigger] r@[k], av, *params, symbols@, ids[k])
        }),
{
    let ghost av = arena_view(expressions@);
    let mut result: Vec<ExpressionCodeEntry> = Vec::new();
    let n = expressions.len();
    let mut j: usize = 0;
    while j < n
        invariant
            n == expressions@.len(),
            j <= n,
            av == arena_view(expressions@),
            arena_wf(av),
            arena_gen(av),
            params.n_stages < usize::MAX,
            result@.len() == selected_ids(av, params.c_exp_id, params.fri_exp_id, j as int).len(),
            forall|k: int|
                0 <= k < result@.len() ==> expr_entry_ok(
                    #[trigger] result@[k],
                    av,
                    *params,
                    symbols@,
                    selected_ids(av, params.c_exp_id, params.fri_exp_id, j as int)[k],
                ),
        decreases n - j,
    {
        let exp = &expressions[j];
        proof {
            assert(av[j as int] == exp@);
        }
        let keep = match exp.keep {
            Some(b) => b,
            None => false,
        };
        let is_c = j == params.c_exp_id;
        let is_f = j == params.fri_exp_id;
        if keep || exp.im_pol || is_c || is_f {
            let dom = if is_c || is_f {
                "ext"
            } else {
                "n"
            };
            let mut ctx = CodeGenCtx::new(params.air_id, params.airgroup_id, exp.stage, dom, false, Vec::new(), Vec::new());
            if is_f {
                let mut ops: Vec<i64> = Vec::new();
                let mut t: usize = 0;
                while t < params.opening_points.len()
                    invariant
                        t <= params.opening_points@.len(),
                        ops@ == params.opening_points@.subrange(0, t as int),
                    decreases params.opening_points.len() - t,
                {
                    ops.push(params.opening_points[t]);
                    t = t + 1;
                    proof {
                        assert(ops@ =~= params.opening_points@.subrange(0, t as int));
                    }
                }
                ctx.opening_points = ops;
            }
            let ghost c0 = ctx;
            if is_c {
                premark_im(&mut ctx, symbols, &params.opening_points);
            }
            proof {
                assert(ctx.witness_by_exp_id@.len() == 0);
                assert(ctx_wf(ctx, symbols@.len() as int));
                if !is_c {
                    assert(calc_lookup(ctx.calculated@, j, 0) is None);
                } else if !premarked(symbols@, params.opening_points@, j, 0) {
                    assert(calc_lookup(ctx.calculated@, j, 0) == calc_lookup(c0.calculated@, j, 0));
                }
            }
            let dest = if exp.im_pol {
                match find_exp_symbol(symbols, j) {
                    Some(k) => {
                        proof {
                            lemma_exp_symbol_range(symbols@, j, 0);
                        }
                        let s = &symbols[k];
                        Some(ExprDest {
                            op: RefType::Cm,
                            stage: match s.stage {
                                Some(x) => x,
                                None => 0,
                            },
                            stage_id: match s.stage_id {
                                Some(x) => x,
                                None => 0,
                            },
                            id: match s.pol_id {
                                Some(x) => x,
                                None => 0,
                            },
                        })
                    },
                    None => None,
                }
            } else {
                None
            };
            let ghost c1 = ctx;
            pil_code_gen(&mut ctx, symbols, expressions, j, 0);
            let ghost c2 = ctx;
            let block = build_code(&mut ctx);
            let mut code = block.code;
            proof {
                lemma_fix_code_len(Seq::empty(), c2.tmp_used, code_view(c2.code@));
                assert(code@.len() == c2.code@.len());
            }
            if is_c && code.len() > 0 {
                set_last_dest(&mut code, CodeRef::plain(RefType::Q, 0, params.q_dim));
            }
            if is_f && code.len() > 0 {
                set_last_dest(&mut code, CodeRef::plain(RefType::F, 0, FIELD_EXTENSION));
            }
            let entry_stage = if exp.stage > params.n_stages + 1 {
                0
            } else {
                exp.stage
            };
            let line = match &exp.line {
                Some(l) => l.clone(),
                None => String::new(),
            };
            proof {
                assert(line@ == match av[j as int].line {
                    Some(l) => l,
                    None => Seq::<char>::empty(),
                });
            }
            let ghost before = result@;
            result.push(ExpressionCodeEntry { tmp_used: block.tmp_used, code, exp_id: j, stage: entry_stage, dest, line });
            proof {
                assert forall|k: int| 0 <= k < result@.len() implies expr_entry_ok(
                    #[trigger] result@[k],
                    av,
                    *params,
                    symbols@,
                    selected_ids(av, params.c_exp_id, params.fri_exp_id, j + 1)[k],
                ) by {
                    if k < before.len() {
                        assert(result@[k] == before[k]);
                    }
                }
            }
        }
        j = j + 1;
    }
    result
}

/// `r` is the debug code entry of constraint `c`.
pub open spec fn constraint_entry_ok(r: ConstraintCodeEntry, c: ConstraintInfo, syms: Seq<SymbolInfo>, ops: Seq<i64>) -> bool {
    &&& r.boundary == c.boundary
    &&& (match r.line {
        Some(l) => c.line matches Some(x) && l@ == x@,
        None => c.line is None,
    })
    &&& r.im_pol == if c.im_pol { 1usize } else { 0 }
    &&& r.stage == match c.stage {
        Some(s) => if s == 0 { 1 } else { s },
        None => 1,
    }
    &&& r.offset_min == if c.boundary == BoundaryKind::EveryFrame { c.offset_min } else { None }
    &&& r.offset_max == if c.boundary == BoundaryKind::EveryFrame { c.offset_max } else { None }
    &&& !premarked(syms, ops, c.e, 0) ==> r.code@.len() > 0
}

/// The debug code of every constraint, with the intermediate polynomials
/// read from their columns.
pub fn generate_constraints_debug_code(
    params: &CodeGenParams,
    symbols: &[SymbolInfo],
    constraints: &[ConstraintInfo],
    expressions: &[Expression],
) -> (r: Vec<ConstraintCodeEntry>)
    requires
        arena_wf(arena_view(expressions@)),
        arena_gen(arena_view(expressions@)),
        forall|i: int| 0 <= i < constraints@.len() ==> (#[trigger] constraints@[i]).e < expressions@.len(),
    ensures
        r@.len() == constraints@.len(),
        forall|i: int| 0 <= i < r@.len() ==> constraint_entry_ok(#[trigger] r@[i], constraints@[i], symbols@, params.opening_points@),
{
    let mut result: Vec<ConstraintCodeEntry> = Vec::new();
    let mut i: usize = 0;
    while i < constraints.len()
        invariant
            i <= constraints@.len(),
            arena_wf(arena_view(expressions@)),
            arena_gen(arena_view(expressions@)),
            forall|t: int| 0 <= t < constraints@.len() ==> (#[trigger] constraints@[t]).e < expressions@.len(),
            result@.len() == i,
            forall|t: int| 0 <= t < i ==> constraint_entry_ok(#[trigger] result@[t], constraints@[t], symbols@, params.opening_points@),
        decreases constraints.len() - i,
    {
        let c = &constraints[i];
        let mut ctx = CodeGenCtx::new(params.air_id, params.airgroup_id, params.n_stages, "n", false, Vec::new(), Vec::new());
        let ghost c0 = ctx;
        premark_im(&mut ctx, symbols, &params.opening_points);
        proof {
            assert(ctx_wf(ctx, symbols@.len() as int));
            assert(constraints@[i as int].e < expressions@.len());
            if !premarked(symbols@, params.opening_points@, c.e, 0) {
                assert(calc_lookup(ctx.calculated@, c.e, 0) == calc_lookup(c0.calculated@, c.e, 0));
            }
        }
        pil_code_gen(&mut ctx, symbols, expressions, c.e, 0);
        let ghost c2 = ctx;
        let block = build_code(&mut ctx);
        proof {
            lemma_fix_code_len(Seq::empty(), c2.tmp_used, code_view(c2.code@));
        }
        let stage = match c.stage {
            Some(s) => if s == 0 {
                1
            } else {
                s
            },
            None => 1,
        };
        let frame = match c.boundary {
            BoundaryKind::EveryFrame => true,
            _ => false,
        };
        let entry = ConstraintCodeEntry {
            tmp_used: block.tmp_used,
            code: block.code,
            boundary: c.boundary,
            line: match &c.line {
                Some(l) => Some(l.clone()),
                None => None,
            },
            im_pol: if c.im_pol {
                1
            } else {
                0
            },
            stage,
            offset_min: if frame {
                c.offset_min
            } else {
                None
            },
            offset_max: if frame {
                c.offset_max
            } else {
                None
            },
        };
        let ghost before = result@;
        result.push(entry);
        proof {
            assert forall|t: int| 0 <= t < i + 1 implies constraint_entry_ok(#[trigger] result@[t], constraints@[t], symbols@, params.opening_points@) by {
                if t < i {
                    assert(result@[t] == before[t]);
                }
            }
        }
        i = i + 1;
    }
    result
}


// ---------------------------------------------------------------------------
// The verifier's code for the constraint polynomial
// ---------------------------------------------------------------------------

/// The operand kind of a column kind.
pub open spec fn col_ref_type(op: ExprOp) -> RefType {
    if op == ExprOp::Cm {
        RefType::Cm
    } else if op == ExprOp::Const {
        RefType::Const
    } else {
        RefType::Custom
    }
}

/// The evaluation-map entry of a column opened at a row offset.
pub open spec fn ev_ref_of(it: crate::helpers::EvMapItem, ops: Seq<i64>) -> EvMapRef {
    EvMapRef {
        entry_type: col_ref_type(it.entry_type),
        id: it.id,
        prime: it.prime,
        opening_pos: pos_of(ops, it.prime) as usize,
        commit_id: if it.entry_type == ExprOp::Custom { it.commit_id } else { None },
    }
}

/// Index of the first symbol of stage `st` with stage id 0 from position `i`
/// on, or 0.
pub open spec fn q_index_from(syms: Seq<SymbolInfo>, st: usize, i: int) -> int
    decreases syms.len() - i,
{
    if i < 0 || i >= syms.len() {
        0
    } else if syms[i].stage == Some(st) && syms[i].stage_id == Some(0usize) {
        i
    } else {
        q_index_from(syms, st, i + 1)
    }
}

proof fn lemma_q_index_range(syms: Seq<SymbolInfo>, st: usize, i: int)
    requires
        0 <= i,
    ensures
        0 <= q_index_from(syms, st, i) <= syms.len(),
    decreases syms.len() - i,
{
    if i < syms.len() {
        lemma_q_index_range(syms, st, i + 1);
    }
}

/// The columns of the quotient, opened at row offset 0.
pub open spec fn q_refs(params: CodeGenParams) -> Seq<EvMapRef> {
    let q = q_index_from(params.cm_pols_map@, (params.n_stages + 1) as usize, 0);
    let pos = pos_of(params.opening_points@, 0);
    Seq::new(
        params.q_deg as nat,
        |i: int| EvMapRef { entry_type: RefType::Cm, id: (q + i) as usize, prime: 0, opening_pos: pos as usize, commit_id: None },
    )
}

/// The evaluation map before sorting: the columns the constraint polynomial
/// opens, then the quotient's columns.
pub open spec fn built_ev(params: CodeGenParams, av: Seq<ExprView>) -> Seq<EvMapRef> {
    let items = crate::helpers::syms_arena(
        av,
        crate::expression::canon_rank(av),
        params.c_exp_id as int,
        (Seq::empty(), Seq::new(av.len(), |i: int| false)),
    ).0;
    items.map_values(|it: crate::helpers::EvMapItem| ev_ref_of(it, params.opening_points@)) + q_refs(params)
}

/// The sort key of a column kind: `cm`, then `const`, then custom commits by
/// index.
pub open spec fn type_key(t: RefType, commit: Option<usize>) -> int {
    if t == RefType::Cm {
        0
    } else if t == RefType::Const {
        1
    } else {
        (match commit {
            Some(c) => c as int,
            None => 0,
        }) + 2
    }
}

/// `a` sorts before `b`: by opening position, then by descending kind key,
/// then by id, then by row offset.
pub open spec fn ev_lt(a: EvMapRef, b: EvMapRef) -> bool {
    ||| a.opening_pos < b.opening_pos
    ||| a.opening_pos == b.opening_pos && type_key(b.entry_type, b.commit_id) < type_key(a.entry_type, a.commit_id)
    ||| a.opening_pos == b.opening_pos && type_key(b.entry_type, b.commit_id) == type_key(a.entry_type, a.commit_id)
        && a.id < b.id
    ||| a.opening_pos == b.opening_pos && type_key(b.entry_type, b.commit_id) == type_key(a.entry_type, a.commit_id)
        && a.id == b.id && a.prime < b.prime
}

/// No entry sorts before an earlier one.
pub open spec fn ev_sorted(s: Seq<EvMapRef>) -> bool {
    forall|i: int, j: int| 0 <= i < j < s.len() ==> !ev_lt(#[trigger] s[j], #[trigger] s[i])
}

fn type_key_of(t: RefType, commit: Option<usize>) -> (k: u128)
    ensures
        k as int == type_key(t, commit),
{
    match t {
        RefType::Cm => 0,
        RefType::Const => 1,
        _ => (match commit {
            Some(c) => c as u128,
            None => 0,
        }) + 2,
    }
}

fn ev_less(a: &EvMapRef, b: &EvMapRef) -> (r: bool)
    ensures
        r == ev_lt(*a, *b),
{
    let ka = type_key_of(a.entry_type, a.commit_id);
    let kb = type_key_of(b.entry_type, b.commit_id);
    if a.opening_pos != b.opening_pos {
        a.opening_pos < b.opening_pos
    } else if ka != kb {
        kb < ka
    } else if a.id != b.id {
        a.id < b.id
    } else {
        a.prime < b.prime
    }
}

/// Sorts the evaluation map (stably) by `ev_lt`.
pub fn sort_ev_map(v: Vec<EvMapRef>) -> (r: Vec<EvMapRef>)
    ensures
        ev_sorted(r@),
        r@.to_multiset() == v@.to_multiset(),
{
    broadcast use vstd::seq_lib::group_to_multiset_ensures;

    let mut out: Vec<EvMapRef> = Vec::new();
    let mut i: usize = 0;
    while i < v.len()
        invariant
            i <= v@.len(),
            ev_sorted(out@),
            out@.to_multiset() == v@.subrange(0, i as int).to_multiset(),
        decreases v.len() - i,
    {
        let x = v[i];
        let mut p: usize = 0;
        while p < out.len() && !ev_less(&x, &out[p])
            invariant
                p <= out@.len(),
                forall|q: int| 0 <= q < p ==> !ev_lt(x, #[trigger] out@[q]),
            decreases out.len() - p,
        {
            p = p + 1;
        }
        let ghost o = out@;
        out.insert(p, x);
        proof {
            vstd::seq_lib::to_multiset_insert(o, p as int, x);
            assert(v@.subrange(0, i as int + 1) =~= v@.subrange(0, i as int).push(x));
            vstd::seq_lib::to_multiset_build(v@.subrange(0, i as int), x);
            assert forall|a: int, b: int| 0 <= a < b < out@.len() implies !ev_lt(#[trigger] out@[b], #[trigger] out@[a]) by {
                if b < p {
                    assert(out@[a] == o[a] && out@[b] == o[b]);
                } else if b == p {
                    assert(out@[a] == o[a]);
                } else if a == p {
                    assert(out@[b] == o[b - 1]);
                    if p < o.len() {
                        assert(ev_lt(x, o[p as int]));
                        if b - 1 > p {
                            assert(!ev_lt(o[b - 1], o[p as int]));
                        }
                    }
                } else if a < p {
                    assert(out@[a] == o[a] && out@[b] == o[b - 1]);
                } else {
                    assert(out@[a] == o[a - 1] && out@[b] == o[b - 1]);
                }
            }
        }
        i = i + 1;
    }
    proof {
        assert(v@.subrange(0, v@.len() as int) =~= v@);
    }
    out
}

fn find_q_index(cm: &Vec<SymbolInfo>, st: usize) -> (r: usize)
    ensures
        r as int == q_index_from(cm@, st, 0),
{
    let mut i: usize = 0;
    while i < cm.len()
        invariant
            i <= cm@.len(),
            q_index_from(cm@, st, 0) == q_index_from(cm@, st, i as int),
        decreases cm.len() - i,
    {
        if cm[i].stage == Some(st) && cm[i].stage_id == Some(0usize) {
            return i;
        }
        i = i + 1;
    }
    0
}

/// The verifier's code for the constraint polynomial, read from the
/// evaluation map: the columns the constraint polynomial opens and the
/// quotient's columns, sorted. The map is handed back in `ev_map_out`.
pub fn generate_constraint_polynomial_verifier_code(
    params: &CodeGenParams,
    symbols: &[SymbolInfo],
    expressions: &[Expression],
    ev_map_out: &mut Vec<EvMapRef>,
) -> (r: ExpressionCodeEntry)
    requires
        arena_wf(arena_view(expressions@)),
        arena_gen(arena_view(expressions@)),
        params.c_exp_id < expressions@.len(),
        params.n_stages < usize::MAX,
        params.cm_pols_map@.len() + params.q_deg <= usize::MAX,
    ensures
        ev_sorted(final(ev_map_out)@),
        final(ev_map_out)@.to_multiset() == built_ev(*params, arena_view(expressions@)).to_multiset(),
        r.exp_id == params.c_exp_id,
        r.stage == 0,
        r.dest is None,
        r.line@.len() == 0,
        !premarked(symbols@, params.opening_points@, params.c_exp_id, 0) ==> r.code@.len() > 0,
{
    let ghost av = arena_view(expressions@);
    let mut ops: Vec<i64> = Vec::new();
    let mut t: usize = 0;
    while t < params.opening_points.len()
        invariant
            t <= params.opening_points@.len(),
            ops@ == params.opening_points@.subrange(0, t as int),
        decreases params.opening_points.len() - t,
    {
        ops.push(params.opening_points[t]);
        t = t + 1;
        proof {
            assert(ops@ =~= params.opening_points@.subrange(0, t as int));
        }
    }
    proof {
        assert(ops@ =~= params.opening_points@);
    }
    let mut ctx = CodeGenCtx::new(params.air_id, params.airgroup_id, params.n_stages + 1, "n", true, ops, Vec::new());
    let ghost c0 = ctx;
    premark_im(&mut ctx, symbols, &params.opening_points);
    // the columns the constraint polynomial opens
    let mut evals: Vec<crate::helpers::EvMapItem> = Vec::new();
    let mut explored: Vec<bool> = Vec::new();
    let mut k: usize = 0;
    while k < expressions.len()
        invariant
            k <= expressions@.len(),
            explored@ == Seq::new(k as nat, |i: int| false),
        decreases expressions.len() - k,
    {
        explored.push(false);
        k = k + 1;
        proof {
            assert(explored@ =~= Seq::new(k as nat, |i: int| false));
        }
    }
    proof {
        assert(evals@ =~= Seq::<crate::helpers::EvMapItem>::empty());
    }
    crate::helpers::add_info_expressions_symbols(&mut evals, expressions, params.c_exp_id, &mut explored);
    let ghost items = evals@;
    let mut built: Vec<EvMapRef> = Vec::new();
    let mut i: usize = 0;
    while i < evals.len()
        invariant
            i <= evals@.len(),
            evals@ == items,
            built@ == items.subrange(0, i as int).map_values(|it: crate::helpers::EvMapItem| ev_ref_of(it, params.opening_points@)),
        decreases evals.len() - i,
    {
        let it = evals[i];
        let pos = position_of(params.opening_points.as_slice(), it.prime);
        let et = match it.entry_type {
            ExprOp::Cm => RefType::Cm,
            ExprOp::Const => RefType::Const,
            _ => RefType::Custom,
        };
        let is_custom = match it.entry_type {
            ExprOp::Custom => true,
            _ => false,
        };
        built.push(EvMapRef {
            entry_type: et,
            id: it.id,
            prime: it.prime,
            opening_pos: pos,
            commit_id: if is_custom {
                it.commit_id
            } else {
                None
            },
        });
        i = i + 1;
        proof {
            assert(built@ =~= items.subrange(0, i as int).map_values(|it: crate::helpers::EvMapItem| ev_ref_of(it, params.opening_points@)));
        }
    }
    // the quotient's columns
    let q_index = find_q_index(&params.cm_pols_map, params.n_stages + 1);
    let pos0 = position_of(params.opening_points.as_slice(), 0);
    proof {
        lemma_q_index_range(params.cm_pols_map@, (params.n_stages + 1) as usize, 0);
        assert(items.subrange(0, items.len() as int) =~= items);
    }
    let ghost base = built@;
    let mut j: usize = 0;
    while j < params.q_deg
        invariant
            j <= params.q_deg,
            q_index <= params.cm_pols_map@.len(),
            params.cm_pols_map@.len() + params.q_deg <= usize::MAX,
            q_index as int == q_index_from(params.cm_pols_map@, (params.n_stages + 1) as usize, 0),
            pos0 as int == pos_of(params.opening_points@, 0),
            built@ == base + q_refs(*params).subrange(0, j as int),
        decreases params.q_deg - j,
    {
        built.push(EvMapRef { entry_type: RefType::Cm, id: q_index + j, prime: 0, opening_pos: pos0, commit_id: None });
        j = j + 1;
        proof {
            assert(built@ =~= base + q_refs(*params).subrange(0, j as int));
        }
    }
    proof {
        assert(q_refs(*params).subrange(0, params.q_deg as int) =~= q_refs(*params));
        assert(built@ == built_ev(*params, av));
    }
    let sorted = sort_ev_map(built);
    ctx.ev_map = sorted;
    proof {
        assert(ctx.witness_by_exp_id@.len() == 0);
        assert(ctx_wf(ctx, symbols@.len() as int));
        if !premarked(symbols@, params.opening_points@, params.c_exp_id, 0) {
            assert(calc_lookup(ctx.calculated@, params.c_exp_id, 0) == calc_lookup(c0.calculated@, params.c_exp_id, 0));
        }
    }
    let ghost c1 = ctx;
    pil_code_gen(&mut ctx, symbols, expressions, params.c_exp_id, 0);
    let ghost c2 = ctx;
    proof {
        assert forall|k: int| 0 <= k < c2.code@.len() implies (#[trigger] c2.code@[k]).op != CodeOp::SubSwap && dest_plain(c2.code@[k]@.dest) by {
            assert(c1.code@.len() == 0);
        }
    }
    let block = build_code(&mut ctx);
    proof {
        lemma_fix_code_len(Seq::empty(), c2.tmp_used, code_view(c2.code@));
        crate::codegen::lemma_dims_code_len(Seq::empty(), fix_code(Seq::empty(), c2.tmp_used, code_view(c2.code@)).2);
    }
    *ev_map_out = ctx.ev_map;
    ExpressionCodeEntry {
        tmp_used: block.tmp_used,
        code: block.code,
        exp_id: params.c_exp_id,
        stage: 0,
        dest: None,
        line: String::new(),
    }
}


// ---------------------------------------------------------------------------
// Everything
// ---------------------------------------------------------------------------

/// The column kind of an evaluation-map entry.
pub open spec fn op_of_ref(t: RefType) -> ExprOp {
    if t == RefType::Cm {
        ExprOp::Cm
    } else if t == RefType::Const {
        ExprOp::Const
    } else {
        ExprOp::Custom
    }
}

/// The FRI polynomial's view of an evaluation-map entry.
pub open spec fn item_of(r: EvMapRef) -> crate::helpers::EvMapItem {
    crate::helpers::EvMapItem { entry_type: op_of_ref(r.entry_type), id: r.id, prime: r.prime, commit_id: r.commit_id }
}

/// What the FRI polynomial needs of the evaluation map: every column has a
/// symbol, and some column is opened at an opening point.
pub open spec fn fri_ready(syms: Seq<SymbolInfo>, ev: Seq<EvMapRef>, ops: Seq<i64>) -> bool {
    &&& forall|k: int| 0 <= k < ev.len() ==> crate::fri_poly::sym_from(syms, item_of(#[trigger] ev[k]), 0) is Some
    &&& exists|k: int, o: int| 0 <= k < ev.len() && 0 <= o < ops.len() && #[trigger] ev[k].prime == #[trigger] ops[o]
}

proof fn lemma_fri_ready_perm(syms: Seq<SymbolInfo>, a: Seq<EvMapRef>, b: Seq<EvMapRef>, ops: Seq<i64>)
    requires
        fri_ready(syms, a, ops),
        a.to_multiset() == b.to_multiset(),
    ensures
        fri_ready(syms, b, ops),
{
    broadcast use vstd::seq_lib::group_to_multiset_ensures;

    assert forall|k: int| 0 <= k < b.len() implies crate::fri_poly::sym_from(syms, item_of(#[trigger] b[k]), 0) is Some by {
        assert(b.to_multiset().count(b[k]) > 0);
        assert(a.contains(b[k]));
        let t = choose|t: int| 0 <= t < a.len() && a[t] == b[k];
        assert(crate::fri_poly::sym_from(syms, item_of(a[t]), 0) is Some);
    }
    let (k, o) = choose|k: int, o: int| 0 <= k < a.len() && 0 <= o < ops.len() && #[trigger] a[k].prime == #[trigger] ops[o];
    assert(a.to_multiset().count(a[k]) > 0);
    assert(b.contains(a[k]));
    let t = choose|t: int| 0 <= t < b.len() && b[t] == a[k];
    assert(b[t].prime == ops[o]);
}

/// The code entry of the FRI polynomial: what `expr_entry_ok` asks of an
/// entry, but with its last line writing the last temporary (of the
/// extension field) in place of the FRI buffer.
pub open spec fn fri_entry_ok(r: ExpressionCodeEntry, av: Seq<ExprView>, params: CodeGenParams, syms: Seq<SymbolInfo>, j: usize) -> bool {
    let e = av[j as int];
    &&& r.exp_id == j
    &&& r.stage == if e.stage > params.n_stages + 1 { 0 } else { e.stage }
    &&& r.line@ == match e.line {
        Some(l) => l,
        None => Seq::empty(),
    }
    &&& (match r.dest {
        Some(d) => d.op == RefType::Cm && expr_dest(syms, e, j) == Some((d.stage, d.stage_id, d.id)),
        None => expr_dest(syms, e, j) is None,
    })
    &&& (j != params.c_exp_id || !premarked(syms, params.opening_points@, j, 0)) ==> r.code@.len() > 0
    &&& r.code@.len() > 0 ==> r.code@.last().dest@ == crate::types::plain_ref(
        RefType::Tmp,
        if r.tmp_used > 0 { (r.tmp_used - 1) as usize } else { usize::MAX },
        FIELD_EXTENSION,
    )
}

/// Two code entries hold the same code.
pub open spec fn same_entry(a: ExpressionCodeEntry, b: ExpressionCodeEntry) -> bool {
    &&& a.tmp_used == b.tmp_used
    &&& code_view(a.code@) == code_view(b.code@)
    &&& a.exp_id == b.exp_id
    &&& a.stage == b.stage
    &&& a.dest == b.dest
    &&& a.line@ == b.line@
}

proof fn lemma_selected_increasing(av: Seq<ExprView>, c: usize, f: usize, n: int)
    requires
        n <= usize::MAX + 1,
    ensures
        forall|a: int, b: int| 0 <= a < b < selected_ids(av, c, f, n).len() ==> selected_ids(av, c, f, n)[a] < selected_ids(
            av,
            c,
            f,
            n,
        )[b],
        forall|a: int| 0 <= a < selected_ids(av, c, f, n).len() ==> selected_ids(av, c, f, n)[a] < n,
    decreases n,
{
    if n > 0 {
        lemma_selected_increasing(av, c, f, n - 1);
        let p = selected_ids(av, c, f, n - 1);
        let s = selected_ids(av, c, f, n);
        assert forall|a: int| 0 <= a < s.len() implies s[a] < n by {
            if a < p.len() {
                assert(s[a] == p[a]);
            }
        }
        assert forall|a: int, b: int| 0 <= a < b < s.len() implies s[a] < s[b] by {
            assert(s[a] == p[a]);
            if b < p.len() {
                assert(s[b] == p[b]);
            }
        }
    }
}

proof fn lemma_selected_in(av: Seq<ExprView>, c: usize, f: usize, n: int, j: int)
    requires
        0 <= j < n,
        j <= usize::MAX,
        selected(av, c, f, j),
    ensures
        exists|k: int| 0 <= k < selected_ids(av, c, f, n).len() && #[trigger] selected_ids(av, c, f, n)[k] == j,
    decreases n,
{
    let s = selected_ids(av, c, f, n);
    if j < n - 1 {
        lemma_selected_in(av, c, f, n - 1, j);
        let k = choose|k: int| 0 <= k < selected_ids(av, c, f, n - 1).len() && #[trigger] selected_ids(av, c, f, n - 1)[k] == j;
        assert(s[k] == j);
    } else {
        assert(s[s.len() - 1] == j);
    }
}

impl ExpressionCodeEntry {
    /// A copy of the entry.
    pub fn deep_copy(&self) -> (r: ExpressionCodeEntry)
        ensures
            r.tmp_used == self.tmp_used,
            code_view(r.code@) == code_view(self.code@),
            r.exp_id == self.exp_id,
            r.stage == self.stage,
            r.dest == self.dest,
            r.line@ == self.line@,
    {
        let mut code: Vec<CodeEntry> = Vec::new();
        let mut i: usize = 0;
        while i < self.code.len()
            invariant
                i <= self.code@.len(),
                code@.len() == i,
                forall|k: int| 0 <= k < i ==> #[trigger] code@[k]@ == self.code@[k]@,
            decreases self.code.len() - i,
        {
            code.push(self.code[i].deep_copy());
            i = i + 1;
        }
        proof {
            assert(code_view(code@) =~= code_view(self.code@));
        }
        ExpressionCodeEntry {
            tmp_used: self.tmp_used,
            code,
            exp_id: self.exp_id,
            stage: self.stage,
            dest: self.dest,
            line: self.line.clone(),
        }
    }
}

/// Generates the code of an AIR. Unless `debug`: the verifier's code for
/// the constraint polynomial and its evaluation map, then the FRI polynomial
/// (appended to the arena, annotated, its id stored in `params`). Then the
/// hints (processed before the FRI polynomial is appended; the two steps do
/// not read what the other writes), the code of every expression that needs
/// one (the FRI polynomial's, with its last line writing a temporary, is
/// also the verifier's query code) and the debug code of every constraint.
/// Fails when, after the FRI polynomial is annotated, the arena holds an
/// operation code generation does not handle.
pub fn generate_pil_code(
    params: &mut CodeGenParams,
    symbols: &mut Vec<SymbolInfo>,
    constraints: &[ConstraintInfo],
    expressions: &mut Vec<Expression>,
    hints: &[HintInfo],
    debug: bool,
    print_ctx: Option<&PrintCtx>,
) -> (res: PilCodeResult)
    requires
        arena_wf(arena_view(old(expressions)@)),
        crate::helpers::arena_known(arena_view(old(expressions)@)),
        arena_gen(arena_view(old(expressions)@)),
        old(params).c_exp_id < old(expressions)@.len(),
        old(params).n_stages + 3 <= usize::MAX,
        old(symbols)@.len() < usize::MAX,
        old(params).cm_pols_map@.len() + old(params).q_deg <= usize::MAX,
        old(params).opening_points@.len() <= isize::MAX,
        forall|i: int| 0 <= i < constraints@.len() ==> (#[trigger] constraints@[i]).e < old(expressions)@.len(),
        hints_ok(hints@),
        hint_arena_ok(arena_view(old(expressions)@), print_ctx),
        debug ==> old(params).fri_exp_id < old(expressions)@.len(),
        !debug ==> fri_ready(old(symbols)@, built_ev(*old(params), arena_view(old(expressions)@)), old(params).opening_points@),
    ensures
        final(params).air_id == old(params).air_id,
        final(params).c_exp_id == old(params).c_exp_id,
        final(params).n_stages == old(params).n_stages,
        final(params).q_deg == old(params).q_deg,
        final(params).q_dim == old(params).q_dim,
        final(params).opening_points@ == old(params).opening_points@,
        debug ==> final(params).fri_exp_id == old(params).fri_exp_id,
        !debug ==> final(params).fri_exp_id == old(expressions)@.len() + 2,
        debug ==> final(symbols)@ == old(symbols)@,
        !debug ==> final(symbols)@.len() == old(symbols)@.len() + 2 && final(symbols)@.subrange(0, old(symbols)@.len() as int)
            == old(symbols)@,
        ({
            &&& res.fri_exp_id == final(params).fri_exp_id
            &&& debug ==> res.ev_map@.len() == 0 && res.challenges_map@.len() == 0
            &&& !debug ==> ev_sorted(res.ev_map@) && res.ev_map@.to_multiset() == built_ev(
                *old(params),
                arena_view(old(expressions)@),
            ).to_multiset()
            &&& res.verifier_info.query_verifier.exp_id == res.fri_exp_id
            &&& res.verifier_info.q_verifier.dest is None
            &&& !debug ==> res.verifier_info.q_verifier.exp_id == old(params).c_exp_id
            &&& res.expressions_info.hints_info@.len() == hints@.len()
            &&& forall|i: int|
                0 <= i < hints@.len() ==> (#[trigger] res.expressions_info.hints_info@[i]).name@ == hints@[i].name@
                    && res.expressions_info.hints_info@[i].fields@.len() == hints@[i].fields@.len() && forall|f: int|
                    0 <= f < hints@[i].fields@.len() ==> field_ok(
                        #[trigger] res.expressions_info.hints_info@[i].fields@[f],
                        hints@[i].fields@[f],
                        old(params).opening_points@,
                        arena_view(old(expressions)@),
                    )
            &&& res.expressions_info.constraints@.len() == constraints@.len()
            &&& forall|i: int|
                0 <= i < constraints@.len() ==> constraint_entry_ok(
                    #[trigger] res.expressions_info.constraints@[i],
                    constraints@[i],
                    final(symbols)@,
                    old(params).opening_points@,
                )
            &&& ({
                let av = arena_view(final(expressions)@);
                let ids = selected_ids(av, final(params).c_exp_id, final(params).fri_exp_id, av.len() as int);
                &&& res.expressions_info.expressions_code@.len() == ids.len()
                &&& forall|a: int, b: int| 0 <= a < b < ids.len() ==> ids[a] < ids[b]
                &&& forall|k: int|
                    0 <= k < ids.len() && ids[k] != final(params).fri_exp_id ==> expr_entry_ok(
                        #[trigger] res.expressions_info.expressions_code@[k],
                        av,
                        *final(params),
                        final(symbols)@,
                        ids[k],
                    )
                &&& exists|k: int| 0 <= k < ids.len() && ids[k] == final(params).fri_exp_id
                &&& forall|k: int|
                    0 <= k < ids.len() && ids[k] == final(params).fri_exp_id ==> fri_entry_ok(
                        #[trigger] res.expressions_info.expressions_code@[k],
                        av,
                        *final(params),
                        final(symbols)@,
                        ids[k],
                    ) && same_entry(res.verifier_info.query_verifier, res.expressions_info.expressions_code@[k])
            })
        }),
{
    let ghost av0 = arena_view(expressions@);
    let ghost syms0 = symbols@;
    let mut ev_map_items: Vec<EvMapRef> = Vec::new();
    let mut challenges_map: Vec<ChallengeMapEntry> = Vec::new();
    let q_verifier = if !debug {
        generate_constraint_polynomial_verifier_code(params, symbols.as_slice(), expressions.as_slice(), &mut ev_map_items)
    } else {
        ExpressionCodeEntry { tmp_used: 0, code: Vec::new(), exp_id: 0, stage: 0, dest: None, line: String::new() }
    };
    let hints_info = add_hints_info(params, expressions, hints, false, print_ctx);
    let ghost av1 = arena_view(expressions@);
    proof {
        lemma_lines_keep(av0, av1);
    }
    if !debug {
        let mut ev_for_fri: Vec<crate::helpers::EvMapItem> = Vec::new();
        let mut i: usize = 0;
        while i < ev_map_items.len()
            invariant
                i <= ev_map_items@.len(),
                ev_for_fri@ == ev_map_items@.subrange(0, i as int).map_values(|e: EvMapRef| item_of(e)),
            decreases ev_map_items.len() - i,
        {
            let e = ev_map_items[i];
            let et = match e.entry_type {
                RefType::Cm => ExprOp::Cm,
                RefType::Const => ExprOp::Const,
                _ => ExprOp::Custom,
            };
            ev_for_fri.push(crate::helpers::EvMapItem { entry_type: et, id: e.id, prime: e.prime, commit_id: e.commit_id });
            i = i + 1;
            proof {
                assert(ev_for_fri@ =~= ev_map_items@.subrange(0, i as int).map_values(|e: EvMapRef| item_of(e)));
            }
        }
        proof {
            assert(ev_map_items@.subrange(0, ev_map_items@.len() as int) =~= ev_map_items@);
            lemma_fri_ready_perm(syms0, built_ev(*params, av0), ev_map_items@, params.opening_points@);
            let ev = ev_for_fri@;
            assert forall|k: int| 0 <= k < ev.len() implies (#[trigger] ev[k]).entry_type == ExprOp::Cm || ev[k].entry_type
                == ExprOp::Const || ev[k].entry_type == ExprOp::Custom by {}
            assert forall|k: int| 0 <= k < ev.len() implies crate::fri_poly::sym_from(syms0, #[trigger] ev[k], 0) is Some by {
                assert(ev[k] == item_of(ev_map_items@[k]));
            }
            let (k, o) = choose|k: int, o: int|
                0 <= k < ev_map_items@.len() && 0 <= o < params.opening_points@.len() && #[trigger] ev_map_items@[k].prime
                    == #[trigger] params.opening_points@[o];
            assert(ev[k].prime == params.opening_points@[o]);
        }
        let fri = crate::fri_poly::generate_fri_polynomial(
            params.n_stages,
            expressions,
            symbols,
            ev_for_fri.as_slice(),
            params.opening_points.as_slice(),
            &mut challenges_map,
        );
        params.fri_exp_id = fri.fri_exp_id;
        let ghost av_fri = arena_view(expressions@);
        proof {
            crate::codegen::lemma_arena_gen_known_nn(av_fri);
        }
        crate::helpers::add_info_expressions(expressions, params.fri_exp_id);
        proof {
            crate::codegen::lemma_arena_gen_known_nn(arena_view(expressions@));
        }
    }
    let ghost av2 = arena_view(expressions@);
    proof {
        assert(arena_wf(av2));
        assert(arena_gen(av2));
        assert(params.fri_exp_id < expressions@.len());
    }
    let mut expressions_code = generate_expressions_code(params, symbols.as_slice(), expressions.as_slice());
    let ghost ids = selected_ids(av2, params.c_exp_id, params.fri_exp_id, av2.len() as int);
    proof {
        lemma_selected_in(av2, params.c_exp_id, params.fri_exp_id, av2.len() as int, params.fri_exp_id as int);
    }
    let mut fri_idx: usize = 0;
    let mut found = false;
    while fri_idx < expressions_code.len() && !found
        invariant
            fri_idx <= expressions_code@.len(),
            expressions_code@.len() == ids.len(),
            forall|k: int| 0 <= k < expressions_code@.len() ==> (#[trigger] expressions_code@[k]).exp_id == ids[k],
            forall|k: int| 0 <= k < fri_idx ==> ids[k] != params.fri_exp_id,
            found ==> fri_idx < expressions_code@.len() && ids[fri_idx as int] == params.fri_exp_id,
        decreases expressions_code@.len() - fri_idx + (if found { 0int } else { 1int }),
    {
        if expressions_code[fri_idx].exp_id == params.fri_exp_id {
            found = true;
        } else {
            fri_idx = fri_idx + 1;
        }
    }
    proof {
        if !found {
            let k = choose|k: int| 0 <= k < ids.len() && #[trigger] ids[k] == params.fri_exp_id;
            assert(ids[k] != params.fri_exp_id);
        }
    }
    let ghost codes0 = expressions_code@;
    let mut fri_entry = expressions_code.remove(fri_idx);
    let ghost e0 = fri_entry;
    proof {
        assert(e0 == codes0[fri_idx as int]);
        assert(expressions@.len() == expressions.len());
        lemma_selected_increasing(av2, params.c_exp_id, params.fri_exp_id, av2.len() as int);
    }
    if fri_entry.code.len() > 0 {
        let t = if fri_entry.tmp_used > 0 {
            fri_entry.tmp_used - 1
        } else {
            usize::MAX
        };
        set_last_dest(&mut fri_entry.code, CodeRef::plain(RefType::Tmp, t, FIELD_EXTENSION));
    }
    let query_verifier = fri_entry.deep_copy();
    let ghost fe = fri_entry;
    expressions_code.insert(fri_idx, fri_entry);
    proof {
        assert forall|k: int| 0 <= k < expressions_code@.len() && k != fri_idx implies #[trigger] expressions_code@[k] == codes0[k] by {}
        assert(expressions_code@[fri_idx as int] == fe);
        assert forall|k: int| 0 <= k < ids.len() && ids[k] == params.fri_exp_id implies k == fri_idx by {
            if k < fri_idx {
                assert(ids[k] < ids[fri_idx as int]);
            } else if k > fri_idx {
                assert(ids[fri_idx as int] < ids[k]);
            }
        }
    }
    let constraints_code = generate_constraints_debug_code(params, symbols.as_slice(), constraints, expressions.as_slice());
    let fri_exp_id = params.fri_exp_id;
    proof {
        if debug {
            assert(ev_map_items@.len() == 0);
            assert(challenges_map@.len() == 0);
        }
    }
    PilCodeResult {
        expressions_info: ExpressionsInfo { hints_info, expressions_code, constraints: constraints_code },
        verifier_info: VerifierInfo { q_verifier, query_verifier },
        ev_map: ev_map_items,
        fri_exp_id,
        challenges_map,
    }
}

} // verus!
