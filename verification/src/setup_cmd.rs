//! Parameters of the setup of an AIR: its opening points and the folding
//! factors of FRI, and the options of a setup run.
use vstd::prelude::*;
use crate::expression::{arena_view, Expression, ExprView};
use crate::pilout_info::ConstraintInfo;
use crate::stark_info::StarkStruct;
use crate::text::{concat, decimal, i64_to_decimal, owned, signed_decimal, str_is, u64_to_decimal};
use crate::map::{sym_view, SymView};
use crate::types::{NameStageEntry, PolMapEntry, PublicMapEntry};
use crate::generate_pil_code::{
    field_in, hint_arena_ok, hint_leaves, hint_op_ok, hint_values_in, hint_values_ok, hints_in, hints_ok, processed_in,
    single_hint_field_in, CodeGenParams, ProcessedHint, ProcessedHintField,
};
use crate::pilout_info::{HintFieldValue, HintInfo};
use crate::print_expression::{same_but_lines, PrintCtx};
use crate::constraint_poly::Boundary;
use crate::expression::BoundaryKind;
use crate::fri_poly::{cmap_view, extend_challenges_map, extended, ChallengeMapEntry};
use crate::pilout_info::SymbolInfo;

verus! {


// ---------------------------------------------------------------------------
// The column maps as the AIR's description gives them
// ---------------------------------------------------------------------------

/// Model of an optional list of lengths.
pub open spec fn lengths_view(l: Option<Vec<usize>>) -> Option<Seq<usize>> {
    match l {
        Some(v) => Some(v@),
        None => None,
    }
}

/// Model of a column entry of the description.
pub ghost struct PolEntryView {
    pub stage: usize,
    pub name: Seq<char>,
    pub dim: usize,
    pub pols_map_id: usize,
    pub stage_id: usize,
    pub lengths: Option<Seq<usize>>,
    pub stage_pos: Option<usize>,
    pub im_pol: Option<bool>,
    pub exp_id: Option<usize>,
}

pub open spec fn pol_entry_view(p: PolMapEntry) -> PolEntryView {
    PolEntryView {
        stage: p.stage,
        name: p.name@,
        dim: p.dim,
        pols_map_id: p.pols_map_id,
        stage_id: p.stage_id,
        lengths: lengths_view(p.lengths),
        stage_pos: p.stage_pos,
        im_pol: p.im_pol,
        exp_id: p.exp_id,
    }
}

pub open spec fn or_zero(x: Option<usize>) -> usize {
    match x {
        Some(v) => v,
        None => 0,
    }
}

/// The entry of fixed column `i`: stage 0, its name, dimension, stage id
/// and lengths.
pub open spec fn const_entry(s: SymView, i: int) -> PolEntryView {
    PolEntryView {
        stage: 0,
        name: s.name,
        dim: s.dim,
        pols_map_id: i as usize,
        stage_id: or_zero(s.stage_id),
        lengths: s.lengths,
        stage_pos: None,
        im_pol: None,
        exp_id: None,
    }
}

/// The entry of witness column `i`: a column of the quotient stage gives
/// its stage position and id; another gives its lengths too and, when it is
/// an intermediate polynomial, that mark and its expression.
pub open spec fn cm_entry(s: SymView, i: int, q_stage: usize) -> PolEntryView {
    let stage = or_zero(s.stage);
    let base = PolEntryView {
        stage,
        name: s.name,
        dim: s.dim,
        pols_map_id: i as usize,
        stage_id: or_zero(s.stage_id),
        lengths: None,
        stage_pos: Some(or_zero(s.stage_pos)),
        im_pol: None,
        exp_id: None,
    };
    if stage == q_stage {
        base
    } else {
        PolEntryView {
            lengths: s.lengths,
            im_pol: if s.im_pol { Some(true) } else { None },
            exp_id: if s.im_pol { s.exp_id } else { None },
            ..base
        }
    }
}

fn copy_lengths(l: &Option<Vec<usize>>) -> (r: Option<Vec<usize>>)
    ensures
        lengths_view(r) == lengths_view(*l),
{
    match l {
        Some(v) => {
            let mut c: Vec<usize> = Vec::new();
            let mut k: usize = 0;
            while k < v.len()
                invariant
                    k <= v@.len(),
                    c@ == v@.subrange(0, k as int),
                decreases v.len() - k,
            {
                c.push(v[k]);
                k = k + 1;
                proof {
                    assert(c@ =~= v@.subrange(0, k as int));
                }
            }
            proof {
                assert(c@ =~= v@);
            }
            Some(c)
        },
        None => None,
    }
}

/// The fixed columns as the description lists them.
pub fn const_pols_output(map: &Vec<SymbolInfo>) -> (r: Vec<PolMapEntry>)
    ensures
        r@.len() == map@.len(),
        forall|i: int| 0 <= i < map@.len() ==> pol_entry_view(#[trigger] r@[i]) == const_entry(sym_view(map@[i]), i),
{
    let mut out: Vec<PolMapEntry> = Vec::new();
    let mut i: usize = 0;
    while i < map.len()
        invariant
            i <= map@.len(),
            out@.len() == i,
            forall|t: int| 0 <= t < i ==> pol_entry_view(#[trigger] out@[t]) == const_entry(sym_view(map@[t]), t),
        decreases map.len() - i,
    {
        let p = &map[i];
        out.push(PolMapEntry {
            stage: 0,
            name: owned(p.name.as_str()),
            dim: p.dim,
            pols_map_id: i,
            stage_id: match p.stage_id { Some(x) => x, None => 0 },
            lengths: copy_lengths(&p.lengths),
            stage_pos: None,
            im_pol: None,
            exp_id: None,
        });
        i = i + 1;
    }
    out
}

/// The witness columns as the description lists them (the quotient stage
/// is stage `n_stages + 1`).
pub fn cm_pols_output(map: &Vec<SymbolInfo>, n_stages: usize) -> (r: Vec<PolMapEntry>)
    requires
        n_stages < usize::MAX,
    ensures
        r@.len() == map@.len(),
        forall|i: int| 0 <= i < map@.len() ==> pol_entry_view(#[trigger] r@[i]) == cm_entry(
            sym_view(map@[i]),
            i,
            (n_stages + 1) as usize,
        ),
{
    let q_stage = n_stages + 1;
    let mut out: Vec<PolMapEntry> = Vec::new();
    let mut i: usize = 0;
    while i < map.len()
        invariant
            i <= map@.len(),
            q_stage == n_stages + 1,
            out@.len() == i,
            forall|t: int| 0 <= t < i ==> pol_entry_view(#[trigger] out@[t]) == cm_entry(sym_view(map@[t]), t, q_stage),
        decreases map.len() - i,
    {
        let p = &map[i];
        let stage = match p.stage { Some(x) => x, None => 0 };
        let q = stage == q_stage;
        let e = PolMapEntry {
            stage,
            name: owned(p.name.as_str()),
            dim: p.dim,
            pols_map_id: i,
            stage_id: match p.stage_id { Some(x) => x, None => 0 },
            lengths: if q { None } else { copy_lengths(&p.lengths) },
            stage_pos: Some(match p.stage_pos { Some(x) => x, None => 0 }),
            im_pol: if !q && p.im_pol { Some(true) } else { None },
            exp_id: if !q && p.im_pol { p.exp_id } else { None },
        };
        proof {
            assert(pol_entry_view(e) == cm_entry(sym_view(*p), i as int, q_stage));
        }
        out.push(e);
        i = i + 1;
    }
    out
}

/// A value or public input as the description lists it: its name, stage
/// (0 when it has none) and lengths.
pub open spec fn named_entry(s: SymView) -> (Seq<char>, usize, Option<Seq<usize>>) {
    (s.name, or_zero(s.stage), s.lengths)
}

/// The proof, airgroup or air values as the description lists them.
pub fn values_output(map: &Vec<SymbolInfo>) -> (r: Vec<NameStageEntry>)
    ensures
        r@.len() == map@.len(),
        forall|i: int| 0 <= i < map@.len() ==> ((#[trigger] r@[i]).name@, r@[i].stage, lengths_view(r@[i].lengths))
            == named_entry(sym_view(map@[i])),
{
    let mut out: Vec<NameStageEntry> = Vec::new();
    let mut i: usize = 0;
    while i < map.len()
        invariant
            i <= map@.len(),
            out@.len() == i,
            forall|t: int| 0 <= t < i ==> ((#[trigger] out@[t]).name@, out@[t].stage, lengths_view(out@[t].lengths))
                == named_entry(sym_view(map@[t])),
        decreases map.len() - i,
    {
        let p = &map[i];
        out.push(NameStageEntry {
            name: owned(p.name.as_str()),
            stage: match p.stage { Some(x) => x, None => 0 },
            lengths: copy_lengths(&p.lengths),
        });
        i = i + 1;
    }
    out
}

/// The public inputs as the description lists them.
pub fn publics_output(map: &Vec<SymbolInfo>) -> (r: Vec<PublicMapEntry>)
    ensures
        r@.len() == map@.len(),
        forall|i: int| 0 <= i < map@.len() ==> ((#[trigger] r@[i]).name@, r@[i].stage, lengths_view(r@[i].lengths))
            == named_entry(sym_view(map@[i])),
{
    let mut out: Vec<PublicMapEntry> = Vec::new();
    let mut i: usize = 0;
    while i < map.len()
        invariant
            i <= map@.len(),
            out@.len() == i,
            forall|t: int| 0 <= t < i ==> ((#[trigger] out@[t]).name@, out@[t].stage, lengths_view(out@[t].lengths))
                == named_entry(sym_view(map@[t])),
        decreases map.len() - i,
    {
        let p = &map[i];
        out.push(PublicMapEntry {
            name: owned(p.name.as_str()),
            stage: match p.stage { Some(x) => x, None => 0 },
            lengths: copy_lengths(&p.lengths),
        });
        i = i + 1;
    }
    out
}

/// The quotient degree the description gives: at least one.
pub fn output_q_deg(q_deg: i64) -> (r: usize)
    requires
        q_deg <= usize::MAX,
    ensures
        r == if q_deg < 1 { 1 } else { q_deg as int },
{
    if q_deg < 1 { 1 } else { q_deg as usize }
}

// ---------------------------------------------------------------------------
// The AIRs a setup run works on
// ---------------------------------------------------------------------------

/// An AIR of the pilout as a setup run sees it: its name, when it has one,
/// and its number of rows.
pub struct AirDesc {
    pub name: Option<String>,
    pub num_rows: Option<u64>,
}

/// An airgroup of the pilout: its name, when it has one, and its AIRs.
pub struct AirgroupDesc {
    pub name: Option<String>,
    pub airs: Vec<AirDesc>,
}

/// An AIR whose setup is computed: its airgroup and its position there,
/// both names and its number of rows.
pub struct AirWorkItem {
    pub ag_idx: usize,
    pub air_idx: usize,
    pub airgroup_name: String,
    pub air_name: String,
    pub num_rows: u64,
}

/// Model of a work item.
pub ghost struct WorkView {
    pub ag_idx: usize,
    pub air_idx: usize,
    pub airgroup_name: Seq<char>,
    pub air_name: Seq<char>,
    pub num_rows: u64,
}

pub open spec fn work_view(w: AirWorkItem) -> WorkView {
    WorkView { ag_idx: w.ag_idx, air_idx: w.air_idx, airgroup_name: w.airgroup_name@, air_name: w.air_name@, num_rows: w.num_rows }
}

pub open spec fn works_view(v: Seq<AirWorkItem>) -> Seq<WorkView> {
    v.map_values(|w: AirWorkItem| work_view(w))
}

/// A name, or `prefix` and the position when there is none.
pub open spec fn name_or(n: Option<String>, prefix: Seq<char>, i: int) -> Seq<char> {
    match n {
        Some(s) => s@,
        None => prefix + decimal(i as nat),
    }
}

/// The rows of an AIR (none counts as zero).
pub open spec fn rows_of(a: AirDesc) -> u64 {
    match a.num_rows {
        Some(r) => r,
        None => 0,
    }
}

/// The work items of the first `k` AIRs of airgroup `g` (at position `gi`):
/// those with rows, in order.
pub open spec fn group_items(g: AirgroupDesc, gi: int, k: int) -> Seq<WorkView>
    decreases k,
{
    if k <= 0 {
        Seq::empty()
    } else {
        let a = g.airs@[k - 1];
        let prev = group_items(g, gi, k - 1);
        if rows_of(a) == 0 {
            prev
        } else {
            prev.push(WorkView {
                ag_idx: gi as usize,
                air_idx: (k - 1) as usize,
                airgroup_name: name_or(g.name, "airgroup_"@, gi),
                air_name: name_or(a.name, "air_"@, k - 1),
                num_rows: rows_of(a),
            })
        }
    }
}

/// The work items of the first `k` airgroups, in order.
pub open spec fn work_items_upto(groups: Seq<AirgroupDesc>, k: int) -> Seq<WorkView>
    decreases k,
{
    if k <= 0 {
        Seq::empty()
    } else {
        work_items_upto(groups, k - 1) + group_items(groups[k - 1], k - 1, groups[k - 1].airs@.len() as int)
    }
}

fn name_or_default(n: &Option<String>, prefix: &str, i: usize) -> (r: String)
    ensures
        r@ == name_or(*n, prefix@, i as int),
{
    match n {
        Some(s) => s.clone(),
        None => concat(prefix, u64_to_decimal(i as u64).as_str()),
    }
}

/// The AIRs a setup run computes, in order: every AIR of every airgroup
/// that has rows (an AIR without rows is skipped), with its airgroup's and
/// its own name (`airgroup_<i>` and `air_<j>` when the pilout gives none).
pub fn air_work_items(groups: &Vec<AirgroupDesc>) -> (r: Vec<AirWorkItem>)
    ensures
        works_view(r@) == work_items_upto(groups@, groups@.len() as int),
{
    let mut out: Vec<AirWorkItem> = Vec::new();
    let mut gi: usize = 0;
    while gi < groups.len()
        invariant
            gi <= groups@.len(),
            works_view(out@) == work_items_upto(groups@, gi as int),
        decreases groups.len() - gi,
    {
        let g = &groups[gi];
        let ghost base = works_view(out@);
        let mut ai: usize = 0;
        while ai < g.airs.len()
            invariant
                gi < groups@.len(),
                *g == groups@[gi as int],
                ai <= g.airs@.len(),
                works_view(out@) == base + group_items(*g, gi as int, ai as int),
            decreases g.airs.len() - ai,
        {
            let a = &g.airs[ai];
            let rows: u64 = match a.num_rows {
                Some(r) => r,
                None => 0,
            };
            let ghost before = works_view(out@);
            if rows != 0 {
                let item = AirWorkItem {
                    ag_idx: gi,
                    air_idx: ai,
                    airgroup_name: name_or_default(&g.name, "airgroup_", gi),
                    air_name: name_or_default(&a.name, "air_", ai),
                    num_rows: rows,
                };
                proof {
                    reveal_strlit("airgroup_");
                    reveal_strlit("air_");
                }
                out.push(item);
                proof {
                    assert(works_view(out@) =~= before.push(work_view(item)));
                }
            }
            proof {
                assert(g.airs@[ai as int] == *a);
                assert(works_view(out@) =~= base + group_items(*g, gi as int, ai as int + 1));
            }
            ai = ai + 1;
        }
        proof {
            assert(works_view(out@) =~= work_items_upto(groups@, gi as int + 1));
        }
        gi = gi + 1;
    }
    out
}

/// Index of the first name equal to `key`, from position `i` on.
pub open spec fn first_named(names: Seq<String>, key: Seq<char>, i: int) -> Option<int>
    decreases names.len() - i,
{
    if i < 0 || i >= names.len() {
        None
    } else if names[i]@ == key {
        Some(i)
    } else {
        first_named(names, key, i + 1)
    }
}

fn find_named(names: &Vec<String>, key: &str) -> (r: Option<usize>)
    ensures
        r matches Some(i) ==> i < names@.len(),
        match r {
            Some(i) => first_named(names@, key@, 0) == Some(i as int),
            None => first_named(names@, key@, 0) is None,
        },
{
    let mut i: usize = names.len();
    let mut found: Option<usize> = None;
    // scan from the back so that the last hit is the first name
    while i > 0
        invariant
            i <= names@.len(),
            match found {
                Some(j) => i <= j < names@.len() && first_named(names@, key@, i as int) == Some(j as int),
                None => first_named(names@, key@, i as int) is None,
            },
        decreases i,
    {
        i = i - 1;
        if str_is(names[i].as_str(), key) {
            found = Some(i);
        }
    }
    found
}

/// The settings an AIR takes, by position among the named settings: those
/// named after the AIR, else those named `default`, else none (the
/// defaults apply).
pub fn settings_index(names: &Vec<String>, air_name: &str) -> (r: Option<usize>)
    ensures
        r matches Some(i) ==> i < names@.len(),
        match first_named(names@, air_name@, 0) {
            Some(i) => r == Some(i as usize),
            None => match first_named(names@, "default"@, 0) {
                Some(i) => r == Some(i as usize),
                None => r is None,
            },
        },
{
    match find_named(names, air_name) {
        Some(i) => Some(i),
        None => {
            let d = find_named(names, "default");
            proof {
                reveal_strlit("default");
            }
            d
        },
    }
}

/// The proof-of-work bits of the settings, 16 when they give none.
pub fn pow_bits_or_default(pow_bits: Option<u64>) -> (r: u64)
    ensures
        r == match pow_bits {
            Some(p) => p,
            None => 16,
        },
{
    match pow_bits {
        Some(p) => p,
        None => 16,
    }
}


/// The inputs and outputs of a setup run.
#[derive(Debug)]
pub struct SetupOptions {
    pub airout_path: String,
    pub build_dir: String,
    pub fixed_dir: Option<String>,
    pub stark_structs_path: Option<String>,
    pub recursive: bool,
    pub std_pil_path: Option<String>,
}

/// `s` comes before `t` in the order of strings (character by character,
/// a proper prefix first).
pub open spec fn lex_lt(s: Seq<char>, t: Seq<char>) -> bool
    decreases s.len(),
{
    if s.len() == 0 {
        t.len() > 0
    } else if t.len() == 0 {
        false
    } else if s[0] != t[0] {
        (s[0] as u32) < (t[0] as u32)
    } else {
        lex_lt(s.drop_first(), t.drop_first())
    }
}

proof fn lemma_lex_asym(s: Seq<char>, t: Seq<char>)
    ensures
        !(lex_lt(s, t) && lex_lt(t, s)),
    decreases s.len(),
{
    if s.len() > 0 && t.len() > 0 && s[0] == t[0] {
        lemma_lex_asym(s.drop_first(), t.drop_first());
    }
}

proof fn lemma_lex_trans(s: Seq<char>, t: Seq<char>, u: Seq<char>)
    requires
        lex_lt(s, t),
        lex_lt(t, u),
    ensures
        lex_lt(s, u),
    decreases s.len(),
{
    if s.len() > 0 && t.len() > 0 && u.len() > 0 && s[0] == t[0] && t[0] == u[0] {
        lemma_lex_trans(s.drop_first(), t.drop_first(), u.drop_first());
    }
}

/// `a` comes before `b` when both are written in decimal.
pub open spec fn dec_lt(a: i64, b: i64) -> bool {
    lex_lt(signed_decimal(a as int), signed_decimal(b as int))
}

fn str_less(s: &str, t: &str) -> (r: bool)
    ensures
        r == lex_lt(s@, t@),
{
    let n = s.unicode_len();
    let m = t.unicode_len();
    let mut i: usize = 0;
    proof {
        assert(s@.subrange(0, n as int) =~= s@);
        assert(t@.subrange(0, m as int) =~= t@);
    }
    while i < n && i < m
        invariant
            n == s@.len(),
            m == t@.len(),
            i <= n,
            i <= m,
            lex_lt(s@, t@) == lex_lt(s@.subrange(i as int, n as int), t@.subrange(i as int, m as int)),
        decreases n - i,
    {
        let a = s.get_char(i);
        let b = t.get_char(i);
        proof {
            let ss = s@.subrange(i as int, n as int);
            let tt = t@.subrange(i as int, m as int);
            assert(ss[0] == a && tt[0] == b);
            assert(ss.drop_first() =~= s@.subrange(i as int + 1, n as int));
            assert(tt.drop_first() =~= t@.subrange(i as int + 1, m as int));
        }
        if a != b {
            return (a as u32) < (b as u32);
        }
        i = i + 1;
    }
    proof {
        let ss = s@.subrange(i as int, n as int);
        let tt = t@.subrange(i as int, m as int);
        if i == n {
            assert(ss.len() == 0);
        } else {
            assert(tt.len() == 0);
        }
    }
    i == n && i < m
}

/// No point comes, in decimal, before an earlier one.
pub open spec fn dec_sorted(s: Seq<i64>) -> bool {
    forall|i: int, j: int| 0 <= i < j < s.len() ==> !dec_lt(#[trigger] s[j], #[trigger] s[i])
}

/// The row offsets of entry `e`.
pub open spec fn offsets_of(av: Seq<ExprView>, e: int) -> Set<i64> {
    av[e].rows_offsets.to_set()
}

/// `p` is a row offset of the expression of one of the first `n` constraints.
pub open spec fn constraint_offset(cs: Seq<ConstraintInfo>, av: Seq<ExprView>, n: int, p: i64) -> bool {
    exists|k: int| 0 <= k < n && #[trigger] av[cs[k].e as int].rows_offsets.contains(p)
}

proof fn lemma_constraint_offset_step(cs: Seq<ConstraintInfo>, av: Seq<ExprView>, n: int, p: i64)
    requires
        0 <= n,
    ensures
        constraint_offset(cs, av, n + 1, p) <==> constraint_offset(cs, av, n, p) || av[cs[n].e as int].rows_offsets.contains(p),
{
    if constraint_offset(cs, av, n + 1, p) {
        let k = choose|k: int| 0 <= k < n + 1 && #[trigger] av[cs[k].e as int].rows_offsets.contains(p);
        if k < n {
            assert(constraint_offset(cs, av, n, p));
        }
    }
    if constraint_offset(cs, av, n, p) {
        let k = choose|k: int| 0 <= k < n && #[trigger] av[cs[k].e as int].rows_offsets.contains(p);
        assert(constraint_offset(cs, av, n + 1, p));
    }
}

/// Entry `i` is kept for hints or is an intermediate polynomial.
pub open spec fn kept_entry(av: Seq<ExprView>, i: int) -> bool {
    av[i].keep == Some(true) || av[i].im_pol
}

/// `p` is a row offset of a kept or intermediate entry among the first `n`.
pub open spec fn kept_offset(av: Seq<ExprView>, n: int, p: i64) -> bool {
    exists|i: int| 0 <= i < n && kept_entry(av, i) && #[trigger] av[i].rows_offsets.contains(p)
}

/// The row offsets the opening points must cover: 0, those of every
/// constraint's expression, and those of every kept or intermediate
/// expression.
pub open spec fn needed_point(cs: Seq<ConstraintInfo>, av: Seq<ExprView>, p: i64) -> bool {
    p == 0 || constraint_offset(cs, av, cs.len() as int, p) || kept_offset(av, av.len() as int, p)
}

proof fn lemma_kept_offset_step(av: Seq<ExprView>, n: int, p: i64)
    requires
        0 <= n,
    ensures
        kept_offset(av, n + 1, p) <==> kept_offset(av, n, p) || (kept_entry(av, n) && av[n].rows_offsets.contains(p)),
{
    if kept_offset(av, n + 1, p) {
        let i = choose|i: int| 0 <= i < n + 1 && kept_entry(av, i) && #[trigger] av[i].rows_offsets.contains(p);
        if i < n {
            assert(kept_offset(av, n, p));
        }
    }
    if kept_offset(av, n, p) {
        let i = choose|i: int| 0 <= i < n && kept_entry(av, i) && #[trigger] av[i].rows_offsets.contains(p);
        assert(kept_offset(av, n + 1, p));
    }
}

fn add_points(points: &mut Vec<i64>, offsets: &Vec<i64>)
    requires
        old(points)@.no_duplicates(),
    ensures
        final(points)@.no_duplicates(),
        forall|p: i64| final(points)@.contains(p) <==> old(points)@.contains(p) || offsets@.contains(p),
{
    let ghost p0 = points@;
    let mut k: usize = 0;
    while k < offsets.len()
        invariant
            k <= offsets@.len(),
            points@.no_duplicates(),
            forall|p: i64| #[trigger] p0.contains(p) ==> points@.contains(p),
            forall|j: int| 0 <= j < k ==> points@.contains(#[trigger] offsets@[j]),
            forall|p: i64| #[trigger] points@.contains(p) ==> p0.contains(p) || exists|j: int| 0 <= j < k && offsets@[j] == p,
        decreases offsets.len() - k,
    {
        let o = offsets[k];
        let present = crate::generate_pil_code::vec_contains(points, o);
        let ghost before = points@;
        if !present {
            points.push(o);
            proof {
                assert forall|a: int, b: int| 0 <= a < b < points@.len() implies points@[a] != points@[b] by {
                    if b == before.len() {
                        assert(before.contains(before[a]));
                    }
                }
                assert forall|p: i64| #[trigger] before.contains(p) implies points@.contains(p) by {
                    let t = choose|t: int| 0 <= t < before.len() && before[t] == p;
                    assert(points@[t] == p);
                }
                assert(points@[before.len() as int] == o);
            }
        }
        proof {
            assert forall|p: i64| #[trigger] points@.contains(p) implies p0.contains(p) || exists|j: int| 0 <= j < k + 1 && offsets@[j] == p by {
                if !before.contains(p) {
                    let t = choose|t: int| 0 <= t < points@.len() && points@[t] == p;
                    assert(t == before.len());
                    assert(offsets@[k as int] == p);
                }
            }
        }
        k = k + 1;
    }
    proof {
        assert forall|p: i64| final(points)@.contains(p) <==> old(points)@.contains(p) || offsets@.contains(p) by {
            if offsets@.contains(p) {
                let j = choose|j: int| 0 <= j < offsets@.len() && offsets@[j] == p;
                assert(points@.contains(offsets@[j]));
            }
        }
    }
}

/// The opening points of an AIR: 0 and every row offset of the constraints'
/// expressions and of the kept and intermediate expressions, each once,
/// sorted by their decimal text.
pub fn collect_opening_points(constraints: &[ConstraintInfo], expressions: &[Expression]) -> (r: Vec<i64>)
    requires
        forall|k: int| 0 <= k < constraints@.len() ==> (#[trigger] constraints@[k]).e < expressions@.len(),
    ensures
        r@.no_duplicates(),
        dec_sorted(r@),
        forall|p: i64| r@.contains(p) <==> needed_point(constraints@, arena_view(expressions@), p),
{
    let ghost av = arena_view(expressions@);
    let mut points: Vec<i64> = Vec::new();
    points.push(0);
    proof {
        assert forall|p: i64| #[trigger] points@.contains(p) <==> p == 0 || constraint_offset(constraints@, av, 0, p) by {
            if p == 0 {
                assert(points@[0] == 0);
            }
        }
    }
    let mut k: usize = 0;
    while k < constraints.len()
        invariant
            k <= constraints@.len(),
            av == arena_view(expressions@),
            forall|t: int| 0 <= t < constraints@.len() ==> (#[trigger] constraints@[t]).e < expressions@.len(),
            points@.no_duplicates(),
            forall|p: i64| #[trigger] points@.contains(p) <==> p == 0 || constraint_offset(constraints@, av, k as int, p),
        decreases constraints.len() - k,
    {
        let e = constraints[k].e;
        proof {
            assert(av[e as int] == expressions@[e as int]@);
            assert(av[e as int].rows_offsets == expressions@[e as int].rows_offsets@);
        }
        let ghost before = points@;
        add_points(&mut points, &expressions[e].rows_offsets);
        proof {
            assert forall|p: i64| #[trigger] points@.contains(p) <==> p == 0 || constraint_offset(constraints@, av, k + 1, p) by {
                lemma_constraint_offset_step(constraints@, av, k as int, p);
                assert(before.contains(p) <==> p == 0 || constraint_offset(constraints@, av, k as int, p));
            }
        }
        k = k + 1;
    }
    proof {
        assert forall|p: i64| #[trigger] points@.contains(p) <==> (p == 0 || constraint_offset(constraints@, av, constraints@.len() as int, p) || kept_offset(av, 0, p)) by {
        }
    }
    let mut i: usize = 0;
    while i < expressions.len()
        invariant
            i <= expressions@.len(),
            av == arena_view(expressions@),
            points@.no_duplicates(),
            forall|p: i64| #[trigger] points@.contains(p) <==> (p == 0 || constraint_offset(constraints@, av, constraints@.len() as int, p) || kept_offset(av, i as int, p)),
        decreases expressions.len() - i,
    {
        let keep = match expressions[i].keep {
            Some(b) => b,
            None => false,
        };
        proof {
            assert(av[i as int] == expressions@[i as int]@);
        }
        let ghost before = points@;
        if keep || expressions[i].im_pol {
            add_points(&mut points, &expressions[i].rows_offsets);
        }
        proof {
            assert(kept_entry(av, i as int) == (keep || expressions@[i as int].im_pol));
            assert(av[i as int].rows_offsets == expressions@[i as int].rows_offsets@);
            assert forall|p: i64| #[trigger] points@.contains(p) <==> (p == 0 || constraint_offset(constraints@, av, constraints@.len() as int, p) || kept_offset(av, i + 1, p)) by {
                lemma_kept_offset_step(av, i as int, p);
                assert(before.contains(p) <==> (p == 0 || constraint_offset(constraints@, av, constraints@.len() as int, p) || kept_offset(av, i as int, p)));
            }
        }
        i = i + 1;
    }
    let sorted = sort_points(points);
    proof {
        assert forall|p: i64| sorted@.contains(p) <==> needed_point(constraints@, av, p) by {
            assert(sorted@.to_multiset().count(p) == points@.to_multiset().count(p));
            vstd::seq_lib::to_multiset_contains(sorted@, p);
            vstd::seq_lib::to_multiset_contains(points@, p);
        }
    }
    sorted
}

proof fn lemma_nodup_perm(a: Seq<i64>, b: Seq<i64>)
    requires
        a.no_duplicates(),
        a.to_multiset() == b.to_multiset(),
    ensures
        b.no_duplicates(),
{
    a.lemma_multiset_has_no_duplicates();
    b.lemma_multiset_has_no_duplicates_conv();
}

/// Sorts points (stably) by their decimal text.
fn sort_points(v: Vec<i64>) -> (r: Vec<i64>)
    ensures
        dec_sorted(r@),
        r@.to_multiset() == v@.to_multiset(),
        v@.no_duplicates() ==> r@.no_duplicates(),
{
    broadcast use vstd::seq_lib::group_to_multiset_ensures;

    let mut out: Vec<i64> = Vec::new();
    let mut i: usize = 0;
    while i < v.len()
        invariant
            i <= v@.len(),
            dec_sorted(out@),
            out@.to_multiset() == v@.subrange(0, i as int).to_multiset(),
        decreases v.len() - i,
    {
        let x = v[i];
        let xs = i64_to_decimal(x);
        let mut p: usize = 0;
        let mut stop = false;
        while p < out.len() && !stop
            invariant
                p <= out@.len(),
                xs@ == signed_decimal(x as int),
                forall|q: int| 0 <= q < p ==> !dec_lt(x, #[trigger] out@[q]),
                stop ==> p < out@.len() && dec_lt(x, out@[p as int]),
            decreases out.len() - p + (if stop { 0int } else { 1int }),
        {
            let ys = i64_to_decimal(out[p]);
            if str_less(xs.as_str(), ys.as_str()) {
                stop = true;
            } else {
                p = p + 1;
            }
        }
        let ghost o = out@;
        out.insert(p, x);
        proof {
            vstd::seq_lib::to_multiset_insert(o, p as int, x);
            assert(v@.subrange(0, i as int + 1) =~= v@.subrange(0, i as int).push(x));
            vstd::seq_lib::to_multiset_build(v@.subrange(0, i as int), x);
            assert forall|a: int, b: int| 0 <= a < b < out@.len() implies !dec_lt(#[trigger] out@[b], #[trigger] out@[a]) by {
                if b < p {
                    assert(out@[a] == o[a] && out@[b] == o[b]);
                } else if b == p {
                    assert(out@[a] == o[a]);
                } else if a == p {
                    assert(out@[b] == o[b - 1]);
                    if stop {
                        lemma_lex_asym(signed_decimal(x as int), signed_decimal(o[p as int] as int));
                        if b - 1 > p {
                            assert(!dec_lt(o[b - 1], o[p as int]));
                            if dec_lt(o[b - 1], x) {
                                lemma_lex_trans(signed_decimal(o[b - 1] as int), signed_decimal(x as int), signed_decimal(o[p as int] as int));
                            }
                        }
                    }
                } else if a < p {
                    assert(out@[a] == o[a] && out@[b] == o[b - 1]);
                } else {
                    assert(out@[a] == o[a - 1] && out@[b] == o[b - 1]);
                }
            }
        }
        i = i + 1;
    }
    proof {
        assert(v@.subrange(0, v@.len() as int) =~= v@);
        if v@.no_duplicates() {
            lemma_nodup_perm(v@, out@);
        }
    }
    out
}

/// The folding factors of FRI: the drop in bits from each step to the next.
pub fn compute_folding_factors(stark_struct: &StarkStruct) -> (r: Vec<u64>)
    requires
        stark_struct.steps@.len() >= 1,
        forall|i: int| 0 <= i < stark_struct.steps@.len() - 1 ==> (#[trigger] stark_struct.steps@[i]).n_bits >= stark_struct.steps@[i + 1].n_bits,
    ensures
        r@.len() == stark_struct.steps@.len() - 1,
        forall|i: int| 0 <= i < r@.len() ==> #[trigger] r@[i] == stark_struct.steps@[i].n_bits - stark_struct.steps@[i + 1].n_bits,
{
    let steps = &stark_struct.steps;
    let mut factors: Vec<u64> = Vec::new();
    let n = steps.len() - 1;
    let mut i: usize = 0;
    while i < n
        invariant
            n == steps@.len() - 1,
            i <= n,
            *steps == stark_struct.steps,
            forall|t: int| 0 <= t < steps@.len() - 1 ==> (#[trigger] steps@[t]).n_bits >= steps@[t + 1].n_bits,
            factors@.len() == i,
            forall|t: int| 0 <= t < i ==> #[trigger] factors@[t] == steps@[t].n_bits - steps@[t + 1].n_bits,
        decreases n - i,
    {
        assert(steps@[i as int].n_bits >= steps@[i as int + 1].n_bits);
        factors.push(steps[i].n_bits - steps[i + 1].n_bits);
        i = i + 1;
    }
    factors
}

/// Processes one value of a global hint: an `exp` becomes a temporary
/// (printing the expression when there is a printing context); any other
/// value, columns included, is copied as it is.
pub fn process_global_single_hint_field(
    expr: &Expression,
    params: &CodeGenParams,
    expressions: &mut Vec<Expression>,
    pos: &[usize],
    print_ctx: Option<&PrintCtx>,
) -> (r: ProcessedHintField)
    requires
        hint_op_ok(expr.op),
        params.opening_points@.len() <= isize::MAX,
        hint_arena_ok(arena_view(old(expressions)@), print_ctx),
    ensures
        processed_in(true, r, expr@, pos@, params.opening_points@, arena_view(old(expressions)@)),
        same_but_lines(arena_view(old(expressions)@), arena_view(final(expressions)@)),
        print_ctx is None ==> final(expressions)@ == old(expressions)@,
{
    single_hint_field_in(expr, params, expressions, pos, print_ctx, true)
}

/// Flattens the nested values of a global hint, depth first, each leaf
/// with its position.
pub fn process_global_hint_values(
    values: &[HintFieldValue],
    params: &CodeGenParams,
    expressions: &mut Vec<Expression>,
    pos: &[usize],
    print_ctx: Option<&PrintCtx>,
) -> (r: Vec<ProcessedHintField>)
    requires
        hint_values_ok(values@),
        params.opening_points@.len() <= isize::MAX,
        hint_arena_ok(arena_view(old(expressions)@), print_ctx),
    ensures
        r@.len() == hint_leaves(values@, pos@).len(),
        forall|k: int|
            0 <= k < r@.len() ==> processed_in(
                true,
                #[trigger] r@[k],
                hint_leaves(values@, pos@)[k].0,
                hint_leaves(values@, pos@)[k].1,
                params.opening_points@,
                arena_view(old(expressions)@),
            ),
        same_but_lines(arena_view(old(expressions)@), arena_view(final(expressions)@)),
        print_ctx is None ==> arena_view(final(expressions)@) == arena_view(old(expressions)@),
{
    hint_values_in(values, params, expressions, pos, print_ctx, true)
}

/// Processes every field of every global hint.
pub fn process_global_hints(
    params: &CodeGenParams,
    expressions: &mut Vec<Expression>,
    hints: &[HintInfo],
    print_ctx: Option<&PrintCtx>,
) -> (r: Vec<ProcessedHint>)
    requires
        hints_ok(hints@),
        params.opening_points@.len() <= isize::MAX,
        hint_arena_ok(arena_view(old(expressions)@), print_ctx),
    ensures
        r@.len() == hints@.len(),
        forall|i: int|
            0 <= i < r@.len() ==> (#[trigger] r@[i]).name@ == hints@[i].name@ && r@[i].fields@.len() == hints@[i].fields@.len()
                && forall|f: int|
                0 <= f < r@[i].fields@.len() ==> field_in(
                    true,
                    #[trigger] r@[i].fields@[f],
                    hints@[i].fields@[f],
                    params.opening_points@,
                    arena_view(old(expressions)@),
                ),
        same_but_lines(arena_view(old(expressions)@), arena_view(final(expressions)@)),
        print_ctx is None ==> arena_view(final(expressions)@) == arena_view(old(expressions)@),
{
    hints_in(params, expressions, hints, print_ctx, true)
}

// ---------------------------------------------------------------------------
// Boundaries and challenges of a starkinfo
// ---------------------------------------------------------------------------

/// Some boundary of `bs` has the name `b`.
pub open spec fn has_boundary(bs: Seq<Boundary>, b: BoundaryKind) -> bool {
    exists|i: int| 0 <= i < bs.len() && (#[trigger] bs[i]).name == b
}

/// The boundaries of the first `k` constraints, each name once, as first
/// seen (with the offsets of the constraint that first has it).
pub open spec fn first_boundaries(cs: Seq<ConstraintInfo>, k: int) -> Seq<Boundary>
    decreases k,
{
    if k <= 0 {
        Seq::empty()
    } else {
        let p = first_boundaries(cs, k - 1);
        if has_boundary(p, cs[k - 1].boundary) {
            p
        } else {
            p.push(Boundary { name: cs[k - 1].boundary, offset_min: cs[k - 1].offset_min, offset_max: cs[k - 1].offset_max })
        }
    }
}

/// The boundaries a starkinfo lists: those of the constraints, each name
/// once in the order first seen; `everyRow` alone when there is none.
pub open spec fn starkinfo_bounds(cs: Seq<ConstraintInfo>) -> Seq<Boundary> {
    let f = first_boundaries(cs, cs.len() as int);
    if f.len() == 0 {
        seq![Boundary { name: BoundaryKind::EveryRow, offset_min: None, offset_max: None }]
    } else {
        f
    }
}

/// The boundaries a starkinfo lists for `constraints`.
pub fn starkinfo_boundaries(constraints: &[ConstraintInfo]) -> (r: Vec<Boundary>)
    ensures
        r@ == starkinfo_bounds(constraints@),
{
    let mut out: Vec<Boundary> = Vec::new();
    let n = constraints.len();
    let mut k: usize = 0;
    while k < n
        invariant
            n == constraints@.len(),
            k <= n,
            out@ == first_boundaries(constraints@, k as int),
        decreases n - k,
    {
        let b = constraints[k].boundary;
        let mut found = false;
        let mut j: usize = 0;
        while j < out.len()
            invariant
                j <= out@.len(),
                found == exists|t: int| 0 <= t < j && (#[trigger] out@[t]).name == b,
            decreases out.len() - j,
        {
            if out[j].name == b {
                found = true;
            }
            j = j + 1;
        }
        if !found {
            out.push(Boundary { name: b, offset_min: constraints[k].offset_min, offset_max: constraints[k].offset_max });
        }
        k = k + 1;
    }
    if out.len() == 0 {
        out.push(Boundary { name: BoundaryKind::EveryRow, offset_min: None, offset_max: None });
        proof {
            assert(out@ =~= seq![Boundary { name: BoundaryKind::EveryRow, offset_min: None, offset_max: None }]);
        }
    }
    out
}

/// The challenges of an AIR as challenge-map entries.
pub open spec fn challenge_entries(setup: Seq<SymbolInfo>) -> Seq<(Seq<char>, usize, usize, usize)> {
    setup.map_values(
        |s: SymbolInfo|
            (
                s.name@,
                match s.stage {
                    Some(x) => x,
                    None => 0,
                },
                s.dim,
                match s.stage_id {
                    Some(x) => x,
                    None => 0,
                },
            ),
    )
}

/// `m` with the first `k` named entries of `fri` put at their index.
pub open spec fn fri_merged(
    m: Seq<(Seq<char>, usize, usize, usize)>,
    fri: Seq<ChallengeMapEntry>,
    k: int,
) -> Seq<(Seq<char>, usize, usize, usize)>
    decreases k,
{
    if k <= 0 {
        m
    } else {
        let m1 = fri_merged(m, fri, k - 1);
        if fri[k - 1].name@.len() == 0 {
            m1
        } else {
            extended(m1, k - 1, (fri[k - 1].name@, fri[k - 1].stage, fri[k - 1].dim, fri[k - 1].stage_id))
        }
    }
}

/// An entry with a name.
pub open spec fn named(e: (Seq<char>, usize, usize, usize)) -> bool {
    e.0.len() > 0
}

/// The challenges map a starkinfo lists: the challenges of the AIR, the
/// named challenges of the FRI polynomial put at their index, and every
/// entry without a name dropped.
pub open spec fn merged_challenges(setup: Seq<SymbolInfo>, fri: Seq<ChallengeMapEntry>) -> Seq<(Seq<char>, usize, usize, usize)> {
    fri_merged(challenge_entries(setup), fri, fri.len() as int).filter(|e: (Seq<char>, usize, usize, usize)| named(e))
}

/// The challenges map a starkinfo lists for the challenges of the AIR and
/// those of the FRI polynomial.
pub fn merge_challenges(setup_map: &[SymbolInfo], fri_map: &[ChallengeMapEntry]) -> (r: Vec<ChallengeMapEntry>)
    ensures
        cmap_view(r@) == merged_challenges(setup_map@, fri_map@),
{
    let mut m: Vec<ChallengeMapEntry> = Vec::new();
    let n = setup_map.len();
    let mut k: usize = 0;
    while k < n
        invariant
            n == setup_map@.len(),
            k <= n,
            cmap_view(m@) == challenge_entries(setup_map@).take(k as int),
        decreases n - k,
    {
        let s = &setup_map[k];
        let e = ChallengeMapEntry {
            name: crate::text::owned(s.name.as_str()),
            stage: match s.stage {
                Some(x) => x,
                None => 0,
            },
            dim: s.dim,
            stage_id: match s.stage_id {
                Some(x) => x,
                None => 0,
            },
        };
        let ghost before = m@;
        m.push(e);
        proof {
            assert(cmap_view(m@) =~= cmap_view(before).push((e.name@, e.stage, e.dim, e.stage_id)));
            assert(challenge_entries(setup_map@).take(k as int + 1) =~= challenge_entries(setup_map@).take(k as int).push(
                (e.name@, e.stage, e.dim, e.stage_id),
            ));
        }
        k = k + 1;
    }
    proof {
        assert(challenge_entries(setup_map@).take(n as int) =~= challenge_entries(setup_map@));
    }
    let ghost base = challenge_entries(setup_map@);
    let f = fri_map.len();
    let mut i: usize = 0;
    while i < f
        invariant
            f == fri_map@.len(),
            i <= f,
            cmap_view(m@) == fri_merged(base, fri_map@, i as int),
        decreases f - i,
    {
        let c = &fri_map[i];
        if c.name.as_str().unicode_len() != 0 {
            extend_challenges_map(&mut m, i, c.name.as_str(), c.stage, c.dim, c.stage_id);
        }
        i = i + 1;
    }
    let mut out: Vec<ChallengeMapEntry> = Vec::new();
    let ghost mv = cmap_view(m@);
    let t = m.len();
    let mut j: usize = 0;
    while j < t
        invariant
            t == m@.len(),
            mv == cmap_view(m@),
            j <= t,
            cmap_view(out@) == mv.take(j as int).filter(|e: (Seq<char>, usize, usize, usize)| named(e)),
        decreases t - j,
    {
        let ghost before = out@;
        proof {
            assert(mv.take(j as int + 1) =~= mv.take(j as int).push(mv[j as int]));
            mv.take(j as int).lemma_filter_push(mv[j as int], |e: (Seq<char>, usize, usize, usize)| named(e));
        }
        if m[j].name.as_str().unicode_len() != 0 {
            let e = ChallengeMapEntry {
                name: crate::text::owned(m[j].name.as_str()),
                stage: m[j].stage,
                dim: m[j].dim,
                stage_id: m[j].stage_id,
            };
            out.push(e);
            proof {
                assert(cmap_view(out@) =~= cmap_view(before).push(mv[j as int]));
            }
        }
        j = j + 1;
    }
    proof {
        assert(mv.take(t as int) =~= mv);
    }
    out
}

} // verus!
