//! The symbols of an AIR, from the compiled PIL description to the symbol
//! list the setup works on.
use vstd::prelude::*;
use crate::error::SetupError;
use crate::map::{sym_view, syms_view, SymView};
use crate::pilout_info::{SymType, SymbolInfo, FIELD_EXTENSION};
use crate::text::owned;

verus! {

/// Kind of a symbol of the compiled PIL.
#[derive(Debug, Clone, Copy, PartialEq, Eq, Structural)]
pub enum PilSymbolType {
    ImCol,
    FixedCol,
    PeriodicCol,
    WitnessCol,
    ProofValue,
    AirGroupValue,
    PublicValue,
    PublicTable,
    Challenge,
    AirValue,
    CustomCol,
}

/// A symbol of the compiled PIL: a column, value or challenge, possibly an
/// array (`dim > 0`, with the length of each dimension in `lengths`).
#[derive(Debug)]
pub struct PilSymbol {
    pub name: String,
    pub air_group_id: Option<u32>,
    pub air_id: Option<u32>,
    pub sym_type: PilSymbolType,
    pub id: u32,
    pub stage: Option<u32>,
    pub dim: u32,
    pub lengths: Vec<u32>,
    pub commit_id: Option<u32>,
}

/// An air group value of the compiled PIL.
#[derive(Debug)]
pub struct AirGroupValueInfo {
    pub stage: u32,
}

/// An air value of the compiled PIL.
#[derive(Debug)]
pub struct AirValueInfo {
    pub stage: u32,
}

/// Product of the lengths.
pub open spec fn prod(l: Seq<u32>) -> nat
    decreases l.len(),
{
    if l.len() == 0 {
        1
    } else {
        (l[0] as nat) * prod(l.drop_first())
    }
}

/// Number of columns (or values) a symbol stands for.
pub open spec fn width(s: PilSymbol) -> nat {
    if s.dim == 0 {
        1
    } else {
        prod(s.lengths@)
    }
}

/// The stage of a symbol, `d` when it has none.
pub open spec fn stage_or(s: PilSymbol, d: nat) -> nat {
    match s.stage {
        Some(x) => x as nat,
        None => d,
    }
}

/// `si` is a column of the kind, air and air group of `s` that comes before
/// it (by stage, then id), in the same custom commit for custom columns.
pub open spec fn counted_before(si: PilSymbol, s: PilSymbol) -> bool {
    &&& si.sym_type == s.sym_type
    &&& si.air_id == s.air_id
    &&& si.air_group_id == s.air_group_id
    &&& (stage_or(si, 0) < stage_or(s, 0) || (stage_or(si, 0) == stage_or(s, 0) && si.id < s.id))
    &&& (s.sym_type == PilSymbolType::CustomCol ==> s.commit_id == si.commit_id)
}

/// Columns of the first `k` symbols counted before `s`.
pub open spec fn pol_id_upto(all: Seq<PilSymbol>, s: PilSymbol, k: int) -> nat
    decreases k,
{
    if k <= 0 {
        0
    } else {
        pol_id_upto(all, s, k - 1) + if counted_before(all[k - 1], s) { width(all[k - 1]) } else { 0 }
    }
}

/// Columns of the first `k` symbols.
pub open spec fn width_upto(all: Seq<PilSymbol>, k: int) -> nat
    decreases k,
{
    if k <= 0 {
        0
    } else {
        width_upto(all, k - 1) + width(all[k - 1])
    }
}

proof fn lemma_pol_id_bound(all: Seq<PilSymbol>, i: int, k: int)
    requires
        0 <= i < all.len(),
        0 <= k <= all.len(),
    ensures
        pol_id_upto(all, all[i], k) + (if i < k { width(all[i]) } else { 0 }) <= width_upto(all, k),
    decreases k,
{
    if k > 0 {
        lemma_pol_id_bound(all, i, k - 1);
        if k - 1 == i {
            assert(!counted_before(all[i], all[i]));
        }
    }
}

/// The product of a suffix, by dimension.
proof fn lemma_prod_step(l: Seq<u32>, k: int)
    requires
        0 <= k < l.len(),
    ensures
        prod(l.subrange(k, l.len() as int)) == (l[k] as nat) * prod(l.subrange(k + 1, l.len() as int)),
{
    assert(l.subrange(k, l.len() as int).drop_first() =~= l.subrange(k + 1, l.len() as int));
}

/// Without a zero length, each suffix product is positive and at most the
/// whole product.
proof fn lemma_prod_suffix(l: Seq<u32>, k: int)
    requires
        0 <= k <= l.len(),
        forall|j: int| 0 <= j < l.len() ==> l[j] > 0,
    ensures
        0 < prod(l.subrange(k, l.len() as int)) <= prod(l),
    decreases k,
{
    if k == 0 {
        assert(l.subrange(0, l.len() as int) =~= l);
        lemma_prod_pos(l);
    } else {
        lemma_prod_suffix(l, k - 1);
        lemma_prod_step(l, k - 1);
        let a = l[k - 1] as nat;
        let b = prod(l.subrange(k, l.len() as int));
        assert(a * b >= b) by (nonlinear_arith)
            requires
                a >= 1,
        ;
        lemma_prod_pos(l.subrange(k, l.len() as int));
    }
}

proof fn lemma_prod_pos(l: Seq<u32>)
    requires
        forall|j: int| 0 <= j < l.len() ==> l[j] > 0,
    ensures
        prod(l) > 0,
    decreases l.len(),
{
    if l.len() > 0 {
        lemma_prod_pos(l.drop_first());
        let a = l[0] as nat;
        let b = prod(l.drop_first());
        assert(a * b > 0) by (nonlinear_arith)
            requires
                a >= 1,
                b >= 1,
        ;
    }
}

proof fn lemma_prod_zero(l: Seq<u32>, j: int)
    requires
        0 <= j < l.len(),
        l[j] == 0,
    ensures
        prod(l) == 0,
    decreases l.len(),
{
    if j > 0 {
        assert(l.drop_first()[j - 1] == l[j]);
        lemma_prod_zero(l.drop_first(), j - 1);
        let a = l[0] as nat;
        assert(a * 0 == 0) by (nonlinear_arith);
    } else {
        let b = prod(l.drop_first());
        assert(0 * b == 0) by (nonlinear_arith);
    }
}

/// The product of the lengths.
fn product(l: &Vec<u32>) -> (r: usize)
    requires
        prod(l@) <= usize::MAX,
    ensures
        r == prod(l@),
{
    let n = l.len();
    let mut j: usize = 0;
    while j < n
        invariant
            n == l@.len(),
            j <= n,
            forall|t: int| 0 <= t < j ==> l@[t] > 0,
        decreases n - j,
    {
        if l[j] == 0 {
            proof {
                lemma_prod_zero(l@, j as int);
            }
            return 0;
        }
        j = j + 1;
    }
    let mut acc: usize = 1;
    let mut k: usize = n;
    proof {
        assert(l@.subrange(n as int, n as int) =~= Seq::<u32>::empty());
    }
    while k > 0
        invariant
            n == l@.len(),
            k <= n,
            forall|t: int| 0 <= t < n ==> l@[t] > 0,
            prod(l@) <= usize::MAX,
            acc as nat == prod(l@.subrange(k as int, n as int)),
        decreases k,
    {
        proof {
            lemma_prod_step(l@, k - 1);
            lemma_prod_suffix(l@, k - 1);
            let a = l@[k - 1] as nat;
            let b = prod(l@.subrange(k as int, n as int));
            assert((acc as nat) * a == a * b) by (nonlinear_arith)
                requires
                    acc as nat == b,
            ;
        }
        acc = acc * (l[k - 1] as usize);
        k = k - 1;
    }
    proof {
        assert(l@.subrange(0, n as int) =~= l@);
    }
    acc
}

/// Number of columns of the symbol.
fn width_of(s: &PilSymbol) -> (r: usize)
    requires
        width(*s) <= usize::MAX,
    ensures
        r == width(*s),
{
    if s.dim == 0 {
        1
    } else {
        product(&s.lengths)
    }
}

/// Column index of `s` among the columns of its kind, air and air group
/// (and custom commit).
fn compute_pol_id(all: &[PilSymbol], s: &PilSymbol, Ghost(i): Ghost<int>) -> (r: usize)
    requires
        0 <= i < all@.len(),
        all@[i] == *s,
        width_upto(all@, all@.len() as int) <= usize::MAX,
    ensures
        r == pol_id_upto(all@, *s, all@.len() as int),
{
    let mut r: usize = 0;
    let n = all.len();
    let mut k: usize = 0;
    while k < n
        invariant
            n == all@.len(),
            k <= n,
            0 <= i < n,
            all@[i] == *s,
            width_upto(all@, n as int) <= usize::MAX,
            r == pol_id_upto(all@, *s, k as int),
        decreases n - k,
    {
        let si = &all[k];
        proof {
            lemma_pol_id_bound(all@, i, k as int + 1);
            lemma_width_upto_mono(all@, k as int + 1, n as int);
            lemma_width_upto_elem(all@, k as int);
        }
        let before = si.sym_type == s.sym_type && si.air_id == s.air_id && si.air_group_id == s.air_group_id && {
            let a: u32 = match si.stage {
                Some(x) => x,
                None => 0,
            };
            let b: u32 = match s.stage {
                Some(x) => x,
                None => 0,
            };
            a < b || (a == b && si.id < s.id)
        } && (s.sym_type != PilSymbolType::CustomCol || s.commit_id == si.commit_id);
        if before {
            let w = width_of(si);
            r = r + w;
        }
        k = k + 1;
    }
    r
}

proof fn lemma_width_upto_mono(all: Seq<PilSymbol>, a: int, b: int)
    requires
        0 <= a <= b,
    ensures
        width_upto(all, a) <= width_upto(all, b),
    decreases b - a,
{
    if a < b {
        lemma_width_upto_mono(all, a, b - 1);
    }
}

proof fn lemma_width_upto_elem(all: Seq<PilSymbol>, k: int)
    requires
        0 <= k,
    ensures
        width(all[k]) <= width_upto(all, k + 1),
{
}

/// The index in dimension `k` of element `t` (in row-major order) of an
/// array with the lengths `l`.
pub open spec fn digit(l: Seq<u32>, t: nat, k: int) -> usize {
    ((t / prod(l.subrange(k + 1, l.len() as int))) % (l[k] as nat)) as usize
}

/// The indexes of element `t` (in row-major order) of an array with the
/// lengths `l`.
pub open spec fn indexes_of(l: Seq<u32>, t: nat) -> Seq<usize> {
    Seq::new(l.len(), |k: int| digit(l, t, k))
}

pub open spec fn opt_usize(o: Option<u32>) -> Option<usize> {
    match o {
        Some(x) => Some(x as usize),
        None => None,
    }
}

/// Element `t` of array symbol `s`, numbered from `base`.
pub open spec fn array_elem(s: PilSymbol, typ: SymType, stage: usize, dim: usize, base: nat, t: nat) -> SymView {
    SymView {
        name: s.name@,
        sym_type: typ,
        stage: Some(stage),
        dim,
        id: Some((base + t) as usize),
        pol_id: Some((base + t) as usize),
        stage_id: Some((s.id + t) as usize),
        air_id: opt_usize(s.air_id),
        airgroup_id: opt_usize(s.air_group_id),
        commit_id: opt_usize(s.commit_id),
        lengths: Some(indexes_of(s.lengths@, t)),
        idx: Some(t as usize),
        stage_pos: None,
        im_pol: false,
        exp_id: None,
    }
}

/// The elements of array symbol `s`, in row-major order, numbered from `base`.
pub open spec fn array_syms(s: PilSymbol, typ: SymType, stage: usize, dim: usize, base: nat) -> Seq<SymView> {
    Seq::new(prod(s.lengths@), |t: int| array_elem(s, typ, stage, dim, base, t as nat))
}

fn opt_u32(o: Option<u32>) -> (r: Option<usize>)
    ensures
        r == opt_usize(o),
{
    match o {
        Some(x) => Some(x as usize),
        None => None,
    }
}

/// The indexes of element `t` of an array with the lengths `l`.
fn indexes_exec(l: &Vec<u32>, t: usize) -> (r: Vec<usize>)
    requires
        t < prod(l@),
    ensures
        r@ == indexes_of(l@, t as nat),
{
    let n = l.len();
    proof {
        if exists|j: int| 0 <= j < n && l@[j] == 0 {
            let j = choose|j: int| 0 <= j < n && l@[j] == 0;
            lemma_prod_zero(l@, j);
        }
    }
    let mut idx: Vec<usize> = Vec::new();
    let mut z: usize = 0;
    while z < n
        invariant
            z <= n,
            n == l@.len(),
            idx@.len() == z,
        decreases n - z,
    {
        idx.push(0);
        z = z + 1;
    }
    let mut rem: usize = t;
    let mut k: usize = n;
    proof {
        assert(l@.subrange(n as int, n as int) =~= Seq::<u32>::empty());
        assert(prod(Seq::<u32>::empty()) == 1);
    }
    while k > 0
        invariant
            n == l@.len(),
            k <= n,
            idx@.len() == n,
            forall|j: int| 0 <= j < n ==> l@[j] > 0,
            rem as nat == (t as nat) / prod(l@.subrange(k as int, n as int)),
            forall|j: int| k <= j < n ==> #[trigger] idx@[j] == digit(l@, t as nat, j),
        decreases k,
    {
        let lk = l[k - 1] as usize;
        proof {
            lemma_prod_step(l@, k - 1);
            lemma_prod_suffix(l@, k as int);
            let pk = prod(l@.subrange(k as int, n as int));
            vstd::arithmetic::div_mod::lemma_div_denominator(t as int, pk as int, lk as int);
            assert(pk * (lk as nat) == (lk as nat) * pk) by (nonlinear_arith);
        }
        idx.set(k - 1, rem % lk);
        rem = rem / lk;
        k = k - 1;
    }
    proof {
        assert(idx@ =~= indexes_of(l@, t as nat));
    }
    idx
}

/// Appends the elements of array symbol `s`, numbered from `base`.
fn push_array(out: &mut Vec<SymbolInfo>, s: &PilSymbol, typ: SymType, stage: usize, dim: usize, base: usize)
    requires
        width(*s) <= usize::MAX,
        s.dim != 0,
        base + width(*s) <= usize::MAX,
        s.id + width(*s) <= usize::MAX,
    ensures
        syms_view(final(out)@) == syms_view(old(out)@) + array_syms(*s, typ, stage, dim, base as nat),
{
    let total = product(&s.lengths);
    let mut t: usize = 0;
    let ghost o = syms_view(out@);
    while t < total
        invariant
            total == prod(s.lengths@),
            t <= total,
            base + total <= usize::MAX,
            s.id + total <= usize::MAX,
            syms_view(out@) == o + array_syms(*s, typ, stage, dim, base as nat).take(t as int),
        decreases total - t,
    {
        let idx = indexes_exec(&s.lengths, t);
        let sym = SymbolInfo {
            name: owned(s.name.as_str()),
            sym_type: typ,
            stage: Some(stage),
            dim,
            id: Some(base + t),
            pol_id: Some(base + t),
            stage_id: Some(s.id as usize + t),
            air_id: opt_u32(s.air_id),
            airgroup_id: opt_u32(s.air_group_id),
            commit_id: opt_u32(s.commit_id),
            lengths: Some(idx),
            idx: Some(t),
            stage_pos: None,
            im_pol: false,
            exp_id: None,
        };
        let ghost before = out@;
        out.push(sym);
        proof {
            assert(sym_view(sym) == array_elem(*s, typ, stage, dim, base as nat, t as nat));
            assert(syms_view(out@) =~= syms_view(before).push(sym_view(sym)));
            assert(array_syms(*s, typ, stage, dim, base as nat).take(t as int + 1) =~= array_syms(
                *s,
                typ,
                stage,
                dim,
                base as nat,
            ).take(t as int).push(array_elem(*s, typ, stage, dim, base as nat, t as nat)));
        }
        t = t + 1;
    }
    proof {
        assert(array_syms(*s, typ, stage, dim, base as nat).take(total as int) =~= array_syms(*s, typ, stage, dim, base as nat));
    }
}

/// A symbol with its name, kind, stage and dimension, and nothing else.
pub open spec fn plain_sym(name: Seq<char>, typ: SymType, stage: Option<usize>, dim: usize) -> SymView {
    SymView {
        name,
        sym_type: typ,
        stage,
        dim,
        id: None,
        pol_id: None,
        stage_id: None,
        air_id: None,
        airgroup_id: None,
        commit_id: None,
        lengths: None,
        idx: None,
        stage_pos: None,
        im_pol: false,
        exp_id: None,
    }
}

/// Challenges among the first `k` symbols that come before a challenge of
/// id `id` in stage `stage`.
pub open spec fn challenges_before(all: Seq<PilSymbol>, stage: nat, id: u32, k: int) -> nat
    decreases k,
{
    if k <= 0 {
        0
    } else {
        challenges_before(all, stage, id, k - 1) + if all[k - 1].sym_type == PilSymbolType::Challenge && (stage_or(
            all[k - 1],
            0,
        ) < stage || (stage_or(all[k - 1], 0) == stage && all[k - 1].id < id)) {
            1nat
        } else {
            0nat
        }
    }
}

/// The dimension of a value of stage `stage`: 1 in stage 1, 3 elsewhere.
pub open spec fn value_dim(stage: nat) -> usize {
    if stage == 1 {
        1
    } else {
        FIELD_EXTENSION
    }
}

/// The symbols the setup makes of symbol `s`.
pub open spec fn sym_out(
    all: Seq<PilSymbol>,
    ags: Seq<AirGroupValueInfo>,
    avs: Seq<AirValueInfo>,
    s: PilSymbol,
) -> Seq<SymView> {
    match s.sym_type {
        PilSymbolType::FixedCol | PilSymbolType::WitnessCol | PilSymbolType::CustomCol => {
            let stage = stage_or(s, 0);
            let typ = if s.sym_type == PilSymbolType::FixedCol {
                SymType::Fixed
            } else if s.sym_type == PilSymbolType::CustomCol {
                SymType::Custom
            } else {
                SymType::Witness
            };
            let dim = if stage <= 1 { 1usize } else { FIELD_EXTENSION };
            let pid = pol_id_upto(all, s, all.len() as int);
            if s.dim == 0 {
                seq![SymView {
                    pol_id: Some(pid as usize),
                    stage_id: Some(s.id as usize),
                    air_id: opt_usize(s.air_id),
                    airgroup_id: opt_usize(s.air_group_id),
                    commit_id: if s.sym_type == PilSymbolType::CustomCol { opt_usize(s.commit_id) } else { None },
                    ..plain_sym(s.name@, typ, Some(stage as usize), dim)
                }]
            } else {
                array_syms(s, typ, stage as usize, dim, pid)
            }
        },
        PilSymbolType::ProofValue => {
            let stage = stage_or(s, 1);
            if s.dim == 0 {
                seq![SymView { id: Some(s.id as usize), ..plain_sym(s.name@, SymType::Proofvalue, Some(stage as usize), value_dim(stage)) }]
            } else {
                array_syms(s, SymType::Proofvalue, stage as usize, value_dim(stage), s.id as nat)
            }
        },
        PilSymbolType::Challenge => {
            let stage = stage_or(s, 1);
            seq![SymView {
                id: Some(challenges_before(all, stage, s.id, all.len() as int) as usize),
                stage_id: Some(s.id as usize),
                ..plain_sym(s.name@, SymType::Challenge, Some(stage as usize), FIELD_EXTENSION)
            }]
        },
        PilSymbolType::PublicValue => {
            if s.dim == 0 {
                seq![SymView { id: Some(s.id as usize), ..plain_sym(s.name@, SymType::Public, Some(1), 1) }]
            } else {
                array_syms(s, SymType::Public, 1, 1, s.id as nat)
            }
        },
        PilSymbolType::AirGroupValue => {
            let st: Option<usize> = if (s.id as int) < ags.len() { Some(ags[s.id as int].stage as usize) } else { None };
            if s.dim == 0 {
                seq![SymView {
                    id: Some(s.id as usize),
                    airgroup_id: opt_usize(s.air_group_id),
                    ..plain_sym(s.name@, SymType::Airgroupvalue, if st == Some(0usize) { None } else { st }, FIELD_EXTENSION)
                }]
            } else {
                array_syms(s, SymType::Airgroupvalue, match st { Some(x) => x, None => 0 }, FIELD_EXTENSION, s.id as nat)
            }
        },
        PilSymbolType::AirValue => {
            let stage: nat = if (s.id as int) < avs.len() { avs[s.id as int].stage as nat } else { 0 };
            if s.dim == 0 {
                seq![SymView {
                    id: Some(s.id as usize),
                    airgroup_id: opt_usize(s.air_group_id),
                    ..plain_sym(s.name@, SymType::Airvalue, Some(stage as usize), value_dim(stage))
                }]
            } else {
                array_syms(s, SymType::Airvalue, stage as usize, value_dim(stage), s.id as nat)
            }
        },
        _ => Seq::empty(),
    }
}

/// The symbols the setup makes of the first `k` symbols.
pub open spec fn formatted(
    all: Seq<PilSymbol>,
    ags: Seq<AirGroupValueInfo>,
    avs: Seq<AirValueInfo>,
    k: int,
) -> Seq<SymView>
    decreases k,
{
    if k <= 0 {
        Seq::empty()
    } else {
        formatted(all, ags, avs, k - 1) + sym_out(all, ags, avs, all[k - 1])
    }
}

/// A custom-commit column outside stage 0.
pub open spec fn bad_custom(s: PilSymbol) -> bool {
    s.sym_type == PilSymbolType::CustomCol && stage_or(s, 0) != 0
}

/// Number of challenges that come before a challenge of id `id` in stage
/// `stage`.
fn count_challenges(all: &[PilSymbol], stage: u32, id: u32) -> (r: usize)
    ensures
        r == challenges_before(all@, stage as nat, id, all@.len() as int),
{
    let n = all.len();
    let mut r: usize = 0;
    let mut k: usize = 0;
    while k < n
        invariant
            n == all@.len(),
            k <= n,
            r == challenges_before(all@, stage as nat, id, k as int),
            r <= k,
        decreases n - k,
    {
        let si = &all[k];
        let st: u32 = match si.stage {
            Some(x) => x,
            None => 0,
        };
        if si.sym_type == PilSymbolType::Challenge && (st < stage || (st == stage && si.id < id)) {
            r = r + 1;
        }
        k = k + 1;
    }
    r
}

fn push_sym(out: &mut Vec<SymbolInfo>, sym: SymbolInfo)
    ensures
        syms_view(final(out)@) == syms_view(old(out)@).push(sym_view(sym)),
{
    let ghost before = out@;
    out.push(sym);
    proof {
        assert(syms_view(out@) =~= syms_view(before).push(sym_view(sym)));
    }
}

/// Whether some custom-commit column is outside stage 0.
fn has_bad_custom(all: &[PilSymbol]) -> (b: bool)
    ensures
        b == exists|i: int| 0 <= i < all@.len() && #[trigger] bad_custom(all@[i]),
{
    let n = all.len();
    let mut k: usize = 0;
    while k < n
        invariant
            n == all@.len(),
            k <= n,
            forall|i: int| 0 <= i < k ==> !#[trigger] bad_custom(all@[i]),
        decreases n - k,
    {
        let st: u32 = match all[k].stage {
            Some(x) => x,
            None => 0,
        };
        if all[k].sym_type == PilSymbolType::CustomCol && st != 0 {
            assert(bad_custom(all@[k as int]));
            return true;
        }
        k = k + 1;
    }
    false
}

/// The symbols of an AIR as the setup works on them: intermediate columns,
/// periodic columns and public tables are left out; columns get their index
/// among the columns of their kind; challenges are numbered by stage; each
/// element of an array symbol becomes a symbol of its own. A custom-commit
/// column outside stage 0 is refused.
pub fn format_symbols(
    all_symbols: &[PilSymbol],
    air_group_values: &[AirGroupValueInfo],
    air_values: &[AirValueInfo],
) -> (r: Result<Vec<SymbolInfo>, SetupError>)
    requires
        width_upto(all_symbols@, all_symbols@.len() as int) <= usize::MAX,
        forall|i: int|
            0 <= i < all_symbols@.len() ==> (#[trigger] all_symbols@[i]).id + width_upto(
                all_symbols@,
                all_symbols@.len() as int,
            ) <= usize::MAX,
    ensures
        match r {
            Ok(v) => {
                &&& !exists|i: int| 0 <= i < all_symbols@.len() && #[trigger] bad_custom(all_symbols@[i])
                &&& syms_view(v@) == formatted(all_symbols@, air_group_values@, air_values@, all_symbols@.len() as int)
            },
            Err(e) => {
                &&& exists|i: int| 0 <= i < all_symbols@.len() && #[trigger] bad_custom(all_symbols@[i])
                &&& e == SetupError::InvalidCustomStage
            },
        },
{
    if has_bad_custom(all_symbols) {
        return Err(SetupError::InvalidCustomStage);
    }
    let ghost all = all_symbols@;
    let ghost ags = air_group_values@;
    let ghost avs = air_values@;
    let n = all_symbols.len();
    let mut out: Vec<SymbolInfo> = Vec::new();
    let mut k: usize = 0;
    proof {
        assert(syms_view(out@) =~= Seq::<SymView>::empty());
    }
    while k < n
        invariant
            n == all.len(),
            all == all_symbols@,
            ags == air_group_values@,
            avs == air_values@,
            k <= n,
            width_upto(all, n as int) <= usize::MAX,
            forall|i: int| 0 <= i < n ==> (#[trigger] all[i]).id + width_upto(all, n as int) <= usize::MAX,
            syms_view(out@) == formatted(all, ags, avs, k as int),
        decreases n - k,
    {
        let s = &all_symbols[k];
        let ghost before = syms_view(out@);
        proof {
            lemma_pol_id_bound(all, k as int, n as int);
            assert(all[k as int].id + width_upto(all, n as int) <= usize::MAX);
        }
        match s.sym_type {
            PilSymbolType::FixedCol | PilSymbolType::WitnessCol | PilSymbolType::CustomCol => {
                let stage: u32 = match s.stage {
                    Some(x) => x,
                    None => 0,
                };
                let typ = if s.sym_type == PilSymbolType::FixedCol {
                    SymType::Fixed
                } else if s.sym_type == PilSymbolType::CustomCol {
                    SymType::Custom
                } else {
                    SymType::Witness
                };
                let dim: usize = if stage <= 1 { 1 } else { FIELD_EXTENSION };
                let pid = compute_pol_id(all_symbols, s, Ghost(k as int));
                if s.dim == 0 {
                    let commit_id = if s.sym_type == PilSymbolType::CustomCol { opt_u32(s.commit_id) } else { None };
                    push_sym(
                        &mut out,
                        SymbolInfo {
                            name: owned(s.name.as_str()),
                            sym_type: typ,
                            stage: Some(stage as usize),
                            dim,
                            id: None,
                            pol_id: Some(pid),
                            stage_id: Some(s.id as usize),
                            air_id: opt_u32(s.air_id),
                            airgroup_id: opt_u32(s.air_group_id),
                            commit_id,
                            lengths: None,
                            idx: None,
                            stage_pos: None,
                            im_pol: false,
                            exp_id: None,
                        },
                    );
                } else {
                    push_array(&mut out, s, typ, stage as usize, dim, pid);
                }
            },
            PilSymbolType::ProofValue => {
                let stage: u32 = match s.stage {
                    Some(x) => x,
                    None => 1,
                };
                let dim: usize = if stage == 1 { 1 } else { FIELD_EXTENSION };
                if s.dim == 0 {
                    push_sym(
                        &mut out,
                        SymbolInfo {
                            name: owned(s.name.as_str()),
                            sym_type: SymType::Proofvalue,
                            stage: Some(stage as usize),
                            dim,
                            id: Some(s.id as usize),
                            pol_id: None,
                            stage_id: None,
                            air_id: None,
                            airgroup_id: None,
                            commit_id: None,
                            lengths: None,
                            idx: None,
                            stage_pos: None,
                            im_pol: false,
                            exp_id: None,
                        },
                    );
                } else {
                    push_array(&mut out, s, SymType::Proofvalue, stage as usize, dim, s.id as usize);
                }
            },
            PilSymbolType::Challenge => {
                let stage: u32 = match s.stage {
                    Some(x) => x,
                    None => 1,
                };
                let id = count_challenges(all_symbols, stage, s.id);
                push_sym(
                    &mut out,
                    SymbolInfo {
                        name: owned(s.name.as_str()),
                        sym_type: SymType::Challenge,
                        stage: Some(stage as usize),
                        dim: FIELD_EXTENSION,
                        id: Some(id),
                        pol_id: None,
                        stage_id: Some(s.id as usize),
                        air_id: None,
                        airgroup_id: None,
                        commit_id: None,
                        lengths: None,
                        idx: None,
                        stage_pos: None,
                        im_pol: false,
                        exp_id: None,
                    },
                );
            },
            PilSymbolType::PublicValue => {
                if s.dim == 0 {
                    push_sym(
                        &mut out,
                        SymbolInfo {
                            name: owned(s.name.as_str()),
                            sym_type: SymType::Public,
                            stage: Some(1),
                            dim: 1,
                            id: Some(s.id as usize),
                            pol_id: None,
                            stage_id: None,
                            air_id: None,
                            airgroup_id: None,
                            commit_id: None,
                            lengths: None,
                            idx: None,
                            stage_pos: None,
                            im_pol: false,
                            exp_id: None,
                        },
                    );
                } else {
                    push_array(&mut out, s, SymType::Public, 1, 1, s.id as usize);
                }
            },
            PilSymbolType::AirGroupValue => {
                let sid = s.id as usize;
                let st: Option<usize> = if sid < air_group_values.len() {
                    Some(air_group_values[sid].stage as usize)
                } else {
                    None
                };
                if s.dim == 0 {
                    let stage = match st {
                        Some(0) => None,
                        other => other,
                    };
                    push_sym(
                        &mut out,
                        SymbolInfo {
                            name: owned(s.name.as_str()),
                            sym_type: SymType::Airgroupvalue,
                            stage,
                            dim: FIELD_EXTENSION,
                            id: Some(sid),
                            pol_id: None,
                            stage_id: None,
                            air_id: None,
                            airgroup_id: opt_u32(s.air_group_id),
                            commit_id: None,
                            lengths: None,
                            idx: None,
                            stage_pos: None,
                            im_pol: false,
                            exp_id: None,
                        },
                    );
                } else {
                    let stage = match st {
                        Some(x) => x,
                        None => 0,
                    };
                    push_array(&mut out, s, SymType::Airgroupvalue, stage, FIELD_EXTENSION, sid);
                }
            },
            PilSymbolType::AirValue => {
                let sid = s.id as usize;
                let stage: u32 = if sid < air_values.len() {
                    air_values[sid].stage
                } else {
                    0
                };
                let dim: usize = if stage != 1 { FIELD_EXTENSION } else { 1 };
                if s.dim == 0 {
                    push_sym(
                        &mut out,
                        SymbolInfo {
                            name: owned(s.name.as_str()),
                            sym_type: SymType::Airvalue,
                            stage: Some(stage as usize),
                            dim,
                            id: Some(sid),
                            pol_id: None,
                            stage_id: None,
                            air_id: None,
                            airgroup_id: opt_u32(s.air_group_id),
                            commit_id: None,
                            lengths: None,
                            idx: None,
                            stage_pos: None,
                            im_pol: false,
                            exp_id: None,
                        },
                    );
                } else {
                    push_array(&mut out, s, SymType::Airvalue, stage as usize, dim, sid);
                }
            },
            _ => {},
        }
        proof {
            assert(syms_view(out@) =~= formatted(all, ags, avs, k as int + 1));
        }
        k = k + 1;
    }
    Ok(out)
}

} // verus!
