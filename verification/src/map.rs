//! Mapping of symbols to columns: each witness, fixed or custom column goes
//! to its slot in the map of its kind (and counts in its section), every
//! other symbol with an id to the map of its kind; then the columns of each
//! stage get their positions.
use vstd::prelude::*;
use crate::pilout_info::{ConstraintInfo, CustomCommitInfo, SymType, SymbolInfo};
use crate::expression::{arena_view, Expression, ExprView};
use crate::print_expression::{
    lemma_print_ok_kept, pe, print_expression_no_cache, print_maps, print_ok, print_rank, same_but_lines, PrintCtx,
    PrintMaps,
};
use crate::text::{concat, decimal, owned, str_is, u64_to_decimal};

verus! {

/// Model of a symbol: the strings become character sequences.
pub ghost struct SymView {
    pub name: Seq<char>,
    pub sym_type: SymType,
    pub stage: Option<usize>,
    pub dim: usize,
    pub id: Option<usize>,
    pub pol_id: Option<usize>,
    pub stage_id: Option<usize>,
    pub air_id: Option<usize>,
    pub airgroup_id: Option<usize>,
    pub commit_id: Option<usize>,
    pub lengths: Option<Seq<usize>>,
    pub idx: Option<usize>,
    pub stage_pos: Option<usize>,
    pub im_pol: bool,
    pub exp_id: Option<usize>,
}

/// The model of a symbol.
pub open spec fn sym_view(s: SymbolInfo) -> SymView {
    SymView {
        name: s.name@,
        sym_type: s.sym_type,
        stage: s.stage,
        dim: s.dim,
        id: s.id,
        pol_id: s.pol_id,
        stage_id: s.stage_id,
        air_id: s.air_id,
        airgroup_id: s.airgroup_id,
        commit_id: s.commit_id,
        lengths: match s.lengths {
            Some(v) => Some(v@),
            None => None,
        },
        idx: s.idx,
        stage_pos: s.stage_pos,
        im_pol: s.im_pol,
        exp_id: s.exp_id,
    }
}

/// The models of a list of symbols.
pub open spec fn syms_view(v: Seq<SymbolInfo>) -> Seq<SymView> {
    v.map_values(|s: SymbolInfo| sym_view(s))
}

/// The model of a fresh symbol.
pub open spec fn blank_sym() -> SymView {
    SymView {
        name: Seq::empty(),
        sym_type: SymType::Unset,
        stage: None,
        dim: 1,
        id: None,
        pol_id: None,
        stage_id: None,
        air_id: None,
        airgroup_id: None,
        commit_id: None,
        lengths: None,
        idx: None,
        stage_pos: None,
        im_pol: false,
        exp_id: None,
    }
}

/// `v` padded with fresh symbols to at least `len` entries.
pub open spec fn pad(v: Seq<SymView>, len: int) -> Seq<SymView> {
    if v.len() >= len {
        v
    } else {
        v + Seq::new((len - v.len()) as nat, |i: int| blank_sym())
    }
}

/// `v` with `x` at position `i`, padded as needed.
pub open spec fn put(v: Seq<SymView>, i: int, x: SymView) -> Seq<SymView> {
    pad(v, i + 1).update(i, x)
}

/// The column maps of an AIR, with the column counts of its sections.
pub struct ColumnMaps {
    pub cm_pols_map: Vec<SymbolInfo>,
    pub const_pols_map: Vec<SymbolInfo>,
    pub challenges_map: Vec<SymbolInfo>,
    pub publics_map: Vec<SymbolInfo>,
    pub proof_values_map: Vec<SymbolInfo>,
    pub airgroup_values_map: Vec<SymbolInfo>,
    pub air_values_map: Vec<SymbolInfo>,
    pub custom_commits_map: Vec<Vec<SymbolInfo>>,
    /// Section name and column count, in the order sections were added.
    pub map_sections_n: Vec<(String, u64)>,
}

/// Model of the column maps.
pub ghost struct MapsView {
    pub cm: Seq<SymView>,
    pub cnst: Seq<SymView>,
    pub challenges: Seq<SymView>,
    pub publics: Seq<SymView>,
    pub proof_values: Seq<SymView>,
    pub airgroup_values: Seq<SymView>,
    pub air_values: Seq<SymView>,
    pub custom: Seq<Seq<SymView>>,
    pub sections: Seq<(Seq<char>, int)>,
}

/// The model of the column maps.
pub open spec fn maps_view(m: ColumnMaps) -> MapsView {
    MapsView {
        cm: syms_view(m.cm_pols_map@),
        cnst: syms_view(m.const_pols_map@),
        challenges: syms_view(m.challenges_map@),
        publics: syms_view(m.publics_map@),
        proof_values: syms_view(m.proof_values_map@),
        airgroup_values: syms_view(m.airgroup_values_map@),
        air_values: syms_view(m.air_values_map@),
        custom: m.custom_commits_map@.map_values(|v: Vec<SymbolInfo>| syms_view(v@)),
        sections: m.map_sections_n@.map_values(|p: (String, u64)| (p.0@, p.1 as int)),
    }
}

/// The first section named `key`, from `i` on.
pub open spec fn find_section(s: Seq<(Seq<char>, int)>, key: Seq<char>, i: int) -> Option<int>
    decreases s.len() - i,
{
    if i < 0 || i >= s.len() {
        None
    } else if s[i].0 == key {
        Some(i)
    } else {
        find_section(s, key, i + 1)
    }
}

/// Section `key` counts `d` more columns (it is added when missing).
pub open spec fn bump(s: Seq<(Seq<char>, int)>, key: Seq<char>, d: int) -> Seq<(Seq<char>, int)> {
    match find_section(s, key, 0) {
        Some(i) => s.update(i, (key, s[i].1 + d)),
        None => s.push((key, d)),
    }
}

/// The name of the sections of custom commit `cid`.
pub open spec fn custom_name(cc: Seq<CustomCommitInfo>, cid: int) -> Seq<char> {
    if cid < cc.len() { cc[cid].name@ } else { "custom"@ + decimal(cid as nat) }
}

/// `v` padded with empty maps to more than `cid` entries.
pub open spec fn pad_custom(v: Seq<Seq<SymView>>, cid: int) -> Seq<Seq<SymView>> {
    if v.len() > cid {
        v
    } else {
        v + Seq::new((cid + 1 - v.len()) as nat, |i: int| Seq::<SymView>::empty())
    }
}

/// Adds a witness, fixed or custom column to its map and its section.
pub open spec fn add_pol(st: MapsView, s: SymView, cc: Seq<CustomCommitInfo>) -> MapsView {
    let pos = match s.pol_id { Some(p) => p as int, None => 0 };
    let stage = match s.stage { Some(x) => x, None => 0 };
    let entry = SymView { stage: Some(stage), ..s };
    if s.sym_type == SymType::Fixed {
        MapsView { cnst: put(st.cnst, pos, entry), sections: bump(st.sections, "const"@, s.dim as int), ..st }
    } else if s.sym_type == SymType::Witness {
        MapsView {
            cm: put(st.cm, pos, entry),
            sections: bump(st.sections, "cm"@ + decimal(stage as nat), s.dim as int),
            ..st
        }
    } else {
        let cid = match s.commit_id { Some(c) => c as int, None => 0 };
        let cm = pad_custom(st.custom, cid);
        MapsView {
            custom: cm.update(cid, put(cm[cid], pos, entry)),
            sections: bump(st.sections, custom_name(cc, cid) + decimal(stage as nat), s.dim as int),
            ..st
        }
    }
}

/// Maps one symbol.
pub open spec fn map_one(st: MapsView, s: SymView, cc: Seq<CustomCommitInfo>) -> MapsView {
    match s.sym_type {
        SymType::Witness | SymType::Fixed | SymType::Custom => add_pol(st, s, cc),
        SymType::Challenge => match s.id {
            Some(i) => MapsView { challenges: put(st.challenges, i as int, s), ..st },
            None => st,
        },
        SymType::Public => match s.id {
            Some(i) => MapsView { publics: put(st.publics, i as int, s), ..st },
            None => st,
        },
        SymType::Airgroupvalue => match s.id {
            Some(i) => MapsView { airgroup_values: put(st.airgroup_values, i as int, s), ..st },
            None => st,
        },
        SymType::Airvalue => match s.id {
            Some(i) => MapsView { air_values: put(st.air_values, i as int, s), ..st },
            None => st,
        },
        SymType::Proofvalue => match s.id {
            Some(i) => MapsView { proof_values: put(st.proof_values, i as int, s), ..st },
            None => st,
        },
        _ => st,
    }
}

/// Maps the first `k` symbols, in order.
pub open spec fn map_all(st: MapsView, syms: Seq<SymView>, k: int, cc: Seq<CustomCommitInfo>) -> MapsView
    decreases k,
{
    if k <= 0 {
        st
    } else {
        map_one(map_all(st, syms, k - 1, cc), syms[k - 1], cc)
    }
}

/// No two sections share a name.
pub open spec fn keys_distinct(s: Seq<(Seq<char>, int)>) -> bool {
    forall|a: int, b: int| 0 <= a < b < s.len() ==> s[a].0 != s[b].0
}

proof fn lemma_find_section(s: Seq<(Seq<char>, int)>, key: Seq<char>, i: int)
    requires
        0 <= i,
    ensures
        match find_section(s, key, i) {
            Some(j) => i <= j < s.len() && s[j].0 == key,
            None => forall|j: int| i <= j < s.len() ==> s[j].0 != key,
        },
    decreases s.len() - i,
{
    if i < s.len() && s[i].0 != key {
        lemma_find_section(s, key, i + 1);
    }
}

/// Counting columns in a section keeps section names distinct.
pub proof fn lemma_bump_distinct(s: Seq<(Seq<char>, int)>, key: Seq<char>, d: int)
    requires
        keys_distinct(s),
    ensures
        keys_distinct(bump(s, key, d)),
{
    lemma_find_section(s, key, 0);
    let r = bump(s, key, d);
    match find_section(s, key, 0) {
        Some(i) => {
            assert forall|a: int, b: int| 0 <= a < b < r.len() implies r[a].0 != r[b].0 by {
                assert(r[a].0 == s[a].0 && r[b].0 == s[b].0);
            }
        },
        None => {
            assert forall|a: int, b: int| 0 <= a < b < r.len() implies r[a].0 != r[b].0 by {
                if b < s.len() {
                    assert(r[a] == s[a] && r[b] == s[b]);
                } else {
                    assert(r[a] == s[a]);
                }
            }
        },
    }
}

/// Mapping symbols keeps section names distinct: each section of the
/// column maps is counted in one entry.
pub proof fn lemma_map_all_distinct(st: MapsView, syms: Seq<SymView>, k: int, cc: Seq<CustomCommitInfo>)
    requires
        keys_distinct(st.sections),
        0 <= k <= syms.len(),
    ensures
        keys_distinct(map_all(st, syms, k, cc).sections),
    decreases k,
{
    if k > 0 {
        lemma_map_all_distinct(st, syms, k - 1, cc);
        let prev = map_all(st, syms, k - 1, cc);
        let s = syms[k - 1];
        let stage = match s.stage { Some(x) => x, None => 0 };
        let cid = match s.commit_id { Some(c) => c as int, None => 0 };
        lemma_bump_distinct(prev.sections, "const"@, s.dim as int);
        lemma_bump_distinct(prev.sections, "cm"@ + decimal(stage as nat), s.dim as int);
        lemma_bump_distinct(prev.sections, custom_name(cc, cid) + decimal(stage as nat), s.dim as int);
    }
}

/// A copy of a symbol.
pub fn copy_symbol(s: &SymbolInfo) -> (r: SymbolInfo)
    ensures
        sym_view(r) == sym_view(*s),
{
    let lengths = match &s.lengths {
        Some(v) => {
            let mut c: Vec<usize> = Vec::new();
            let mut k: usize = 0;
            while k < v.len()
                invariant
                    k <= v@.len(),
                    c@ == v@.subrange(0, k as int),
                decreases v.len() - k,
            {
                c.push(v[k]);
                k = k + 1;
                proof {
                    assert(c@ =~= v@.subrange(0, k as int));
                }
            }
            proof {
                assert(c@ =~= v@);
            }
            Some(c)
        },
        None => None,
    };
    SymbolInfo {
        name: owned(s.name.as_str()),
        sym_type: s.sym_type,
        stage: s.stage,
        dim: s.dim,
        id: s.id,
        pol_id: s.pol_id,
        stage_id: s.stage_id,
        air_id: s.air_id,
        airgroup_id: s.airgroup_id,
        commit_id: s.commit_id,
        lengths,
        idx: s.idx,
        stage_pos: s.stage_pos,
        im_pol: s.im_pol,
        exp_id: s.exp_id,
    }
}

/// Pads `v` with fresh symbols to at least `len` entries.
pub fn ensure_vec_len(v: &mut Vec<SymbolInfo>, len: usize)
    ensures
        syms_view(final(v)@) == pad(syms_view(old(v)@), len as int),
        final(v)@.len() == if old(v)@.len() >= len { old(v)@.len() } else { len as nat },
{
    let ghost v0 = syms_view(v@);
    if v.len() >= len {
        return;
    }
    while v.len() < len
        invariant
            v0 == syms_view(old(v)@),
            v0.len() <= v@.len() <= len,
            syms_view(v@) =~= v0 + Seq::new((v@.len() - v0.len()) as nat, |i: int| blank_sym()),
        decreases len - v.len(),
    {
        let d = SymbolInfo::default();
        proof {
            assert(sym_view(d) == blank_sym());
        }
        let ghost before = v@;
        v.push(d);
        proof {
            assert(syms_view(v@) =~= syms_view(before).push(blank_sym()));
            assert(syms_view(v@) =~= v0 + Seq::new((v@.len() - v0.len()) as nat, |i: int| blank_sym()));
        }
    }
}

/// Puts `s` at position `i` of `v`, padding as needed.
fn put_symbol(v: &mut Vec<SymbolInfo>, i: usize, s: SymbolInfo)
    requires
        i < usize::MAX,
    ensures
        syms_view(final(v)@) == put(syms_view(old(v)@), i as int, sym_view(s)),
{
    ensure_vec_len(v, i + 1);
    let ghost p = syms_view(v@);
    assert(v@.len() > i);
    v.set(i, s);
    proof {
        assert(syms_view(v@) =~= p.update(i as int, sym_view(s)));
    }
}

/// The model of a list of sections.
pub open spec fn sections_view(v: Seq<(String, u64)>) -> Seq<(Seq<char>, int)> {
    v.map_values(|p: (String, u64)| (p.0@, p.1 as int))
}

/// Dimensions of the first `k` symbols.
pub open spec fn total_dims(syms: Seq<SymView>, k: int) -> int
    decreases k,
{
    if k <= 0 { 0 } else { total_dims(syms, k - 1) + syms[k - 1].dim }
}

proof fn lemma_total_dims_mono(syms: Seq<SymView>, k: int, j: int)
    requires
        0 <= k <= j,
    ensures
        total_dims(syms, k) <= total_dims(syms, j),
    decreases j - k,
{
    if k < j {
        lemma_total_dims_mono(syms, k, j - 1);
    }
}

/// Section `key` counts `d` more columns.
fn bump_section(sections: &mut Vec<(String, u64)>, key: String, d: u64)
    requires
        forall|i: int| 0 <= i < old(sections)@.len() ==> (#[trigger] old(sections)@[i]).1 + d <= u64::MAX,
    ensures
        sections_view(final(sections)@) == bump(sections_view(old(sections)@), key@, d as int),
{
    let ghost sv = sections_view(sections@);
    let mut i: usize = 0;
    while i < sections.len()
        invariant
            i <= sections@.len(),
            sections@ == old(sections)@,
            sv == sections_view(old(sections)@),
            find_section(sv, key@, 0) == find_section(sv, key@, i as int),
            forall|t: int| 0 <= t < old(sections)@.len() ==> (#[trigger] old(sections)@[t]).1 + d <= u64::MAX,
        decreases sections.len() - i,
    {
        if str_is(sections[i].0.as_str(), key.as_str()) {
            proof {
                assert(sv[i as int].0 == key@);
                assert(find_section(sv, key@, 0) == Some(i as int));
            }
            let (k, v) = sections.remove(i);
            sections.insert(i, (k, v + d));
            proof {
                assert(sections_view(sections@) =~= sv.update(i as int, (key@, sv[i as int].1 + d)));
            }
            return;
        }
        i = i + 1;
    }
    sections.push((key, d));
    proof {
        assert(sections_view(sections@) =~= sv.push((key@, d as int)));
    }
}

/// What mapping the symbols needs: ids and positions that can be padded
/// to, and section counts that stay within 64 bits.
pub open spec fn map_ok(st: MapsView, syms: Seq<SymView>) -> bool {
    &&& total_dims(syms, syms.len() as int) <= u64::MAX
    &&& forall|i: int| 0 <= i < st.sections.len() ==> (#[trigger] st.sections[i]).1 + total_dims(syms, syms.len() as int)
        <= u64::MAX
    &&& forall|k: int|
        0 <= k < syms.len() ==> {
            &&& (#[trigger] syms[k]).id matches Some(x) ==> x < usize::MAX
            &&& syms[k].pol_id matches Some(x) ==> x < usize::MAX
            &&& syms[k].commit_id matches Some(x) ==> x < usize::MAX
        }
}

proof fn lemma_bump_bound(s: Seq<(Seq<char>, int)>, key: Seq<char>, d: int, b: int)
    requires
        0 <= d <= b,
        forall|i: int| 0 <= i < s.len() ==> (#[trigger] s[i]).1 + d <= b,
    ensures
        forall|i: int| 0 <= i < bump(s, key, d).len() ==> (#[trigger] bump(s, key, d)[i]).1 <= b,
{
    lemma_find_section_range(s, key, 0);
}

proof fn lemma_find_section_range(s: Seq<(Seq<char>, int)>, key: Seq<char>, i: int)
    requires
        0 <= i,
    ensures
        match find_section(s, key, i) {
            Some(j) => i <= j < s.len() && s[j].0 == key,
            None => true,
        },
    decreases s.len() - i,
{
    if i < s.len() && s[i].0 != key {
        lemma_find_section_range(s, key, i + 1);
    }
}

/// Adding a column keeps every section count within `b` when the counts
/// plus its dimension are.
proof fn lemma_bump_bound_any(st: MapsView, s: SymView, cc: Seq<CustomCommitInfo>, b: int)
    requires
        s.sym_type == SymType::Witness || s.sym_type == SymType::Fixed || s.sym_type == SymType::Custom,
        0 <= s.dim <= b,
        forall|i: int| 0 <= i < st.sections.len() ==> (#[trigger] st.sections[i]).1 + s.dim <= b,
    ensures
        forall|i: int| 0 <= i < add_pol(st, s, cc).sections.len() ==> (#[trigger] add_pol(st, s, cc).sections[i]).1 <= b,
{
    let stage = match s.stage { Some(x) => x, None => 0 };
    let cid = match s.commit_id { Some(c) => c as int, None => 0 };
    if s.sym_type == SymType::Fixed {
        lemma_bump_bound(st.sections, "const"@, s.dim as int, b);
    } else if s.sym_type == SymType::Witness {
        lemma_bump_bound(st.sections, "cm"@ + decimal(stage as nat), s.dim as int, b);
    } else {
        lemma_bump_bound(st.sections, custom_name(cc, cid) + decimal(stage as nat), s.dim as int, b);
    }
}

/// Adds a witness, fixed or custom column to its map and its section.
fn add_pol_exec(maps: &mut ColumnMaps, s: &SymbolInfo, cc: &[CustomCommitInfo])
    requires
        s.sym_type == SymType::Witness || s.sym_type == SymType::Fixed || s.sym_type == SymType::Custom,
        s.pol_id matches Some(x) ==> x < usize::MAX,
        s.commit_id matches Some(x) ==> x < usize::MAX,
        forall|i: int| 0 <= i < old(maps).map_sections_n@.len() ==> (#[trigger] old(maps).map_sections_n@[i]).1 + s.dim
            <= u64::MAX,
    ensures
        maps_view(*final(maps)) == add_pol(maps_view(*old(maps)), sym_view(*s), cc@),
{
    let ghost st = maps_view(*maps);
    let pos: usize = match s.pol_id { Some(p) => p, None => 0 };
    let stage: usize = match s.stage { Some(x) => x, None => 0 };
    let mut entry = copy_symbol(s);
    entry.stage = Some(stage);
    let ghost ev = sym_view(entry);
    proof {
        assert(ev == (SymView { stage: Some(stage), ..sym_view(*s) }));
    }
    match s.sym_type {
        SymType::Fixed => {
            put_symbol(&mut maps.const_pols_map, pos, entry);
            bump_section(&mut maps.map_sections_n, owned("const"), s.dim as u64);
        },
        SymType::Witness => {
            put_symbol(&mut maps.cm_pols_map, pos, entry);
            let key = concat("cm", u64_to_decimal(stage as u64).as_str());
            bump_section(&mut maps.map_sections_n, key, s.dim as u64);
        },
        _ => {
            let cid: usize = match s.commit_id { Some(c) => c, None => 0 };
            let ghost c0 = maps.custom_commits_map@.map_values(|v: Vec<SymbolInfo>| syms_view(v@));
            while maps.custom_commits_map.len() <= cid
                invariant
                    cid < usize::MAX,
                    c0.len() <= maps.custom_commits_map@.len(),
                    maps.custom_commits_map@.len() > c0.len() ==> maps.custom_commits_map@.len() <= cid + 1,
                    maps.custom_commits_map@.map_values(|v: Vec<SymbolInfo>| syms_view(v@)) =~= c0 + Seq::new(
                        (maps.custom_commits_map@.len() - c0.len()) as nat,
                        |i: int| Seq::<SymView>::empty(),
                    ),
                    maps.cm_pols_map == old(maps).cm_pols_map,
                    maps.const_pols_map == old(maps).const_pols_map,
                    maps.challenges_map == old(maps).challenges_map,
                    maps.publics_map == old(maps).publics_map,
                    maps.proof_values_map == old(maps).proof_values_map,
                    maps.airgroup_values_map == old(maps).airgroup_values_map,
                    maps.air_values_map == old(maps).air_values_map,
                    maps.map_sections_n == old(maps).map_sections_n,
                    c0 == old(maps).custom_commits_map@.map_values(|v: Vec<SymbolInfo>| syms_view(v@)),
                decreases cid + 1 - maps.custom_commits_map.len(),
            {
                let ghost before = maps.custom_commits_map@;
                maps.custom_commits_map.push(Vec::new());
                proof {
                    assert(syms_view(Seq::<SymbolInfo>::empty()) =~= Seq::<SymView>::empty());
                    assert(maps.custom_commits_map@.map_values(|v: Vec<SymbolInfo>| syms_view(v@)) =~= before.map_values(
                        |v: Vec<SymbolInfo>| syms_view(v@),
                    ).push(Seq::<SymView>::empty()));
                }
            }
            let ghost padded = maps.custom_commits_map@.map_values(|v: Vec<SymbolInfo>| syms_view(v@));
            proof {
                assert(padded =~= pad_custom(c0, cid as int));
            }
            let ghost outer = maps.custom_commits_map@;
            let mut inner = maps.custom_commits_map.remove(cid);
            put_symbol(&mut inner, pos, entry);
            maps.custom_commits_map.insert(cid, inner);
            proof {
                assert(maps.custom_commits_map@.map_values(|v: Vec<SymbolInfo>| syms_view(v@)) =~= padded.update(
                    cid as int,
                    put(padded[cid as int], pos as int, ev),
                ));
            }
            let name = if cid < cc.len() {
                owned(cc[cid].name.as_str())
            } else {
                concat("custom", u64_to_decimal(cid as u64).as_str())
            };
            let key = concat(name.as_str(), u64_to_decimal(stage as u64).as_str());
            bump_section(&mut maps.map_sections_n, key, s.dim as u64);
        },
    }
    proof {
        assert(maps_view(*maps) =~~= add_pol(st, sym_view(*s), cc@));
    }
}

/// Maps every symbol, in order: a witness, fixed or custom column to the
/// slot `pol_id` of its map (padding the map with fresh symbols) and adds
/// its dimension to its section (`cm<stage>`, `const`, or the commit's name
/// and stage); a challenge, public, air value, air-group value or proof
/// value with an id to that slot of its map.
pub fn map_symbols(maps: &mut ColumnMaps, symbols: &[SymbolInfo], custom_commits: &[CustomCommitInfo])
    requires
        map_ok(maps_view(*old(maps)), syms_view(symbols@)),
    ensures
        maps_view(*final(maps)) == map_all(maps_view(*old(maps)), syms_view(symbols@), symbols@.len() as int, custom_commits@),
        keys_distinct(maps_view(*old(maps)).sections) ==> keys_distinct(maps_view(*final(maps)).sections),
{
    let ghost sv = syms_view(symbols@);
    let ghost st0 = maps_view(*maps);
    proof {
        if keys_distinct(st0.sections) {
            lemma_map_all_distinct(st0, sv, sv.len() as int, custom_commits@);
        }
    }
    let ghost total = total_dims(sv, sv.len() as int);
    let mut k: usize = 0;
    while k < symbols.len()
        invariant
            k <= symbols@.len(),
            sv == syms_view(symbols@),
            map_ok(st0, sv),
            total == total_dims(sv, sv.len() as int),
            maps_view(*maps) == map_all(st0, sv, k as int, custom_commits@),
            forall|i: int|
                0 <= i < maps_view(*maps).sections.len() ==> (#[trigger] maps_view(*maps).sections[i]).1 + total - total_dims(
                    sv,
                    k as int,
                ) <= u64::MAX,
        decreases symbols.len() - k,
    {
        let s = &symbols[k];
        let ghost before = maps_view(*maps);
        let ghost rest = total - total_dims(sv, k as int + 1);
        proof {
            assert(sv[k as int] == sym_view(*s));
            lemma_total_dims_mono(sv, k as int + 1, sv.len() as int);
            lemma_total_dims_mono(sv, 0, k as int);
            assert(total_dims(sv, k as int + 1) == total_dims(sv, k as int) + s.dim);
            assert forall|i: int| 0 <= i < maps.map_sections_n@.len() implies (#[trigger] maps.map_sections_n@[i]).1 + s.dim
                <= u64::MAX by {
                assert(before.sections[i].1 == maps.map_sections_n@[i].1);
            }
            assert(map_ok(st0, sv));
            assert(sv[k as int].pol_id matches Some(x) ==> x < usize::MAX);
        }
        match s.sym_type {
            SymType::Witness | SymType::Fixed | SymType::Custom => {
                add_pol_exec(maps, s, custom_commits);
            },
            SymType::Challenge => {
                if let Some(id) = s.id {
                    put_symbol(&mut maps.challenges_map, id, copy_symbol(s));
                }
            },
            SymType::Public => {
                if let Some(id) = s.id {
                    put_symbol(&mut maps.publics_map, id, copy_symbol(s));
                }
            },
            SymType::Airgroupvalue => {
                if let Some(id) = s.id {
                    put_symbol(&mut maps.airgroup_values_map, id, copy_symbol(s));
                }
            },
            SymType::Airvalue => {
                if let Some(id) = s.id {
                    put_symbol(&mut maps.air_values_map, id, copy_symbol(s));
                }
            },
            SymType::Proofvalue => {
                if let Some(id) = s.id {
                    put_symbol(&mut maps.proof_values_map, id, copy_symbol(s));
                }
            },
            _ => {},
        }
        proof {
            assert(maps_view(*maps) =~~= map_one(before, sv[k as int], custom_commits@));
            let b = u64::MAX - rest;
            assert forall|i: int| 0 <= i < before.sections.len() implies (#[trigger] before.sections[i]).1 + s.dim <= b by {
            }
            if s.sym_type == SymType::Witness || s.sym_type == SymType::Fixed || s.sym_type == SymType::Custom {
                lemma_bump_bound_any(before, sym_view(*s), custom_commits@, b);
            }
        }
        k = k + 1;
    }
}

/// Dimensions of the first `k` entries of `pm` that are in stage `stage`.
pub open spec fn stage_dims(pm: Seq<SymView>, stage: usize, k: int) -> int
    decreases k,
{
    if k <= 0 {
        0
    } else {
        stage_dims(pm, stage, k - 1) + if pm[k - 1].stage == Some(stage) { pm[k - 1].dim as int } else { 0 }
    }
}

/// Number of the first `k` entries of `pm` that are in stage `stage`.
pub open spec fn stage_count(pm: Seq<SymView>, stage: usize, k: int) -> int
    decreases k,
{
    if k <= 0 {
        0
    } else {
        stage_count(pm, stage, k - 1) + if pm[k - 1].stage == Some(stage) { 1int } else { 0 }
    }
}

/// Position of the first entry named `name` among the entries of stage
/// `stage`, scanning from `j` with `c` of them seen; 0 when there is none.
pub open spec fn name_pos(pm: Seq<SymView>, stage: usize, name: Seq<char>, j: int, c: int) -> int
    decreases pm.len() - j,
{
    if j < 0 || j >= pm.len() {
        0
    } else if pm[j].stage == Some(stage) {
        if pm[j].name == name { c } else { name_pos(pm, stage, name, j + 1, c + 1) }
    } else {
        name_pos(pm, stage, name, j + 1, c)
    }
}

/// Model of the symbols and the maps whose stage positions are set.
pub ghost struct StageState {
    pub syms: Seq<SymView>,
    pub cm: Seq<SymView>,
    pub custom: Seq<Seq<SymView>>,
}

/// `x` with its stage position and stage id set.
pub open spec fn with_stage_info(x: SymView, pos: int, id: int) -> SymView {
    SymView { stage_pos: Some(pos as usize), stage_id: Some(id as usize), ..x }
}

/// Sets the stage position and stage id of symbol `i` (a witness or custom
/// column) and of its entry in its map.
pub open spec fn stage_info_one(st: StageState, i: int, q_stage: int) -> StageState {
    let s = st.syms[i];
    let stage = match s.stage { Some(x) => x, None => 0 };
    let pol_id = match s.pol_id { Some(x) => x as int, None => 0 };
    let cid = match s.commit_id { Some(x) => x as int, None => 0 };
    let witness = s.sym_type == SymType::Witness;
    if !(witness || s.sym_type == SymType::Custom) || (!witness && cid >= st.custom.len()) {
        st
    } else {
        let pm = if witness { st.cm } else { st.custom[cid] };
        let upto = if pol_id < pm.len() { pol_id } else { pm.len() as int };
        let pos = stage_dims(pm, stage, upto);
        let id = if s.stage_id is None || s.stage_id == Some(0usize) {
            if stage == q_stage { stage_count(pm, stage, upto) } else { name_pos(pm, stage, s.name, 0, 0) }
        } else {
            s.stage_id.unwrap() as int
        };
        let syms = st.syms.update(i, with_stage_info(s, pos, id));
        if pol_id < pm.len() {
            let npm = pm.update(pol_id, with_stage_info(pm[pol_id], pos, id));
            if witness {
                StageState { syms, cm: npm, custom: st.custom }
            } else {
                StageState { syms, cm: st.cm, custom: st.custom.update(cid, npm) }
            }
        } else {
            StageState { syms, cm: st.cm, custom: st.custom }
        }
    }
}

/// Sets the stage information of the first `k` symbols, in order.
pub open spec fn stage_info_all(st: StageState, k: int, q_stage: int) -> StageState
    decreases k,
{
    if k <= 0 { st } else { stage_info_one(stage_info_all(st, k - 1, q_stage), k - 1, q_stage) }
}

/// Dimensions of the first `k` entries of `pm`.
pub open spec fn all_dims(pm: Seq<SymView>, k: int) -> int
    decreases k,
{
    if k <= 0 { 0 } else { all_dims(pm, k - 1) + pm[k - 1].dim }
}

proof fn lemma_stage_dims_bound(pm: Seq<SymView>, stage: usize, k: int, n: int)
    requires
        0 <= k <= n <= pm.len(),
    ensures
        0 <= stage_dims(pm, stage, k) <= all_dims(pm, n),
        stage_count(pm, stage, k) <= k,
    decreases n,
{
    if n > 0 {
        if k == n {
            lemma_stage_dims_bound(pm, stage, k - 1, n - 1);
        } else {
            lemma_stage_dims_bound(pm, stage, k, n - 1);
        }
    }
}

proof fn lemma_all_dims_same(a: Seq<SymView>, b: Seq<SymView>, k: int)
    requires
        0 <= k <= a.len(),
        a.len() == b.len(),
        forall|j: int| 0 <= j < a.len() ==> (#[trigger] a[j]).dim == b[j].dim,
    ensures
        all_dims(a, k) == all_dims(b, k),
    decreases k,
{
    if k > 0 {
        lemma_all_dims_same(a, b, k - 1);
    }
}

proof fn lemma_name_pos_bound(pm: Seq<SymView>, stage: usize, name: Seq<char>, j: int, c: int)
    requires
        0 <= j <= pm.len(),
        0 <= c,
    ensures
        0 <= name_pos(pm, stage, name, j, c) <= c + pm.len() - j,
    decreases pm.len() - j,
{
    if 0 <= j < pm.len() {
        if pm[j].stage == Some(stage) {
            if pm[j].name != name {
                lemma_name_pos_bound(pm, stage, name, j + 1, c + 1);
            }
        } else {
            lemma_name_pos_bound(pm, stage, name, j + 1, c);
        }
    }
}

/// Position, count and name position of the entries of stage `stage`.
fn stage_facts(pm: &Vec<SymbolInfo>, stage: usize, upto: usize, name: &str) -> (r: (usize, usize, usize))
    requires
        upto <= pm@.len(),
        all_dims(syms_view(pm@), pm@.len() as int) <= usize::MAX,
    ensures
        r.0 == stage_dims(syms_view(pm@), stage, upto as int),
        r.1 == stage_count(syms_view(pm@), stage, upto as int),
        r.2 == name_pos(syms_view(pm@), stage, name@, 0, 0),
{
    let ghost v = syms_view(pm@);
    let mut pos: usize = 0;
    let mut cnt: usize = 0;
    let mut j: usize = 0;
    while j < upto
        invariant
            upto <= pm@.len(),
            v == syms_view(pm@),
            j <= upto,
            pos == stage_dims(v, stage, j as int),
            cnt == stage_count(v, stage, j as int),
            all_dims(v, v.len() as int) <= usize::MAX,
        decreases upto - j,
    {
        proof {
            lemma_stage_dims_bound(v, stage, j as int + 1, v.len() as int);
            assert(v[j as int] == sym_view(pm@[j as int]));
        }
        if pm[j].stage == Some(stage) {
            pos = pos + pm[j].dim;
            cnt = cnt + 1;
        }
        j = j + 1;
    }
    let mut k: usize = 0;
    let mut c: usize = 0;
    let mut found: Option<usize> = None;
    while k < pm.len() && found.is_none()
        invariant
            v == syms_view(pm@),
            k <= pm@.len(),
            c <= k,
            match found {
                Some(x) => name_pos(v, stage, name@, 0, 0) == x,
                None => name_pos(v, stage, name@, 0, 0) == name_pos(v, stage, name@, k as int, c as int),
            },
        decreases pm.len() - k + (if found is None { 1int } else { 0int }),
    {
        proof {
            assert(v[k as int] == sym_view(pm@[k as int]));
        }
        if pm[k].stage == Some(stage) {
            if str_is(pm[k].name.as_str(), name) {
                found = Some(c);
            } else {
                c = c + 1;
                k = k + 1;
            }
        } else {
            k = k + 1;
        }
    }
    let np = match found {
        Some(x) => x,
        None => 0,
    };
    (pos, cnt, np)
}

/// Sets the stage position and id of symbol `x`.
fn set_info(x: &mut SymbolInfo, pos: usize, id: usize)
    ensures
        sym_view(*final(x)) == with_stage_info(sym_view(*old(x)), pos as int, id as int),
{
    x.stage_pos = Some(pos);
    x.stage_id = Some(id);
}

/// The models of the custom maps.
pub open spec fn customs_view(v: Seq<Vec<SymbolInfo>>) -> Seq<Seq<SymView>> {
    v.map_values(|x: Vec<SymbolInfo>| syms_view(x@))
}

/// Every map's dimensions add up within `usize`.
pub open spec fn dims_fit(cm: Seq<SymView>, custom: Seq<Seq<SymView>>) -> bool {
    &&& all_dims(cm, cm.len() as int) <= usize::MAX
    &&& forall|c: int| 0 <= c < custom.len() ==> all_dims(#[trigger] custom[c], custom[c].len() as int) <= usize::MAX
}

proof fn lemma_update_keeps_dims(pm: Seq<SymView>, j: int, pos: int, id: int)
    requires
        0 <= j < pm.len(),
    ensures
        all_dims(pm.update(j, with_stage_info(pm[j], pos, id)), pm.len() as int) == all_dims(pm, pm.len() as int),
{
    let u = pm.update(j, with_stage_info(pm[j], pos, id));
    assert forall|t: int| 0 <= t < pm.len() implies (#[trigger] pm[t]).dim == u[t].dim by {}
    lemma_all_dims_same(pm, u, pm.len() as int);
}

/// Sets the stage information of entry `k`.
fn set_entry_info(pm: &mut Vec<SymbolInfo>, k: usize, pos: usize, id: usize)
    requires
        k < old(pm)@.len(),
    ensures
        final(pm)@.len() == old(pm)@.len(),
        syms_view(final(pm)@) == syms_view(old(pm)@).update(
            k as int,
            with_stage_info(syms_view(old(pm)@)[k as int], pos as int, id as int),
        ),
        all_dims(syms_view(final(pm)@), final(pm)@.len() as int) == all_dims(syms_view(old(pm)@), old(pm)@.len() as int),
{
    let ghost pm0 = syms_view(pm@);
    let mut e = pm.remove(k);
    set_info(&mut e, pos, id);
    pm.insert(k, e);
    proof {
        assert(syms_view(pm@) =~= pm0.update(k as int, with_stage_info(pm0[k as int], pos as int, id as int)));
        lemma_update_keeps_dims(pm0, k as int, pos as int, id as int);
    }
}

/// Sets the stage information of symbol `i` and of its map entry.
#[verifier::rlimit(30)]
fn stage_info_step(
    symbols: &mut Vec<SymbolInfo>,
    cm_pols_map: &mut Vec<SymbolInfo>,
    custom_commits_map: &mut Vec<Vec<SymbolInfo>>,
    i: usize,
    q_stage: usize,
)
    requires
        i < old(symbols)@.len(),
        dims_fit(syms_view(old(cm_pols_map)@), customs_view(old(custom_commits_map)@)),
    ensures
        (StageState {
            syms: syms_view(final(symbols)@),
            cm: syms_view(final(cm_pols_map)@),
            custom: customs_view(final(custom_commits_map)@),
        }) == stage_info_one(
            StageState {
                syms: syms_view(old(symbols)@),
                cm: syms_view(old(cm_pols_map)@),
                custom: customs_view(old(custom_commits_map)@),
            },
            i as int,
            q_stage as int,
        ),
        final(symbols)@.len() == old(symbols)@.len(),
        dims_fit(syms_view(final(cm_pols_map)@), customs_view(final(custom_commits_map)@)),
{
    let ghost cur = StageState {
        syms: syms_view(symbols@),
        cm: syms_view(cm_pols_map@),
        custom: customs_view(custom_commits_map@),
    };
    proof {
        assert(cur.syms[i as int] == sym_view(symbols@[i as int]));
    }
    let t = symbols[i].sym_type;
    let witness = match t {
        SymType::Witness => true,
        _ => false,
    };
    let custom = match t {
        SymType::Custom => true,
        _ => false,
    };
    let stage: usize = match symbols[i].stage { Some(x) => x, None => 0 };
    let pol_id: usize = match symbols[i].pol_id { Some(x) => x, None => 0 };
    let cid: usize = match symbols[i].commit_id { Some(x) => x, None => 0 };
    if (witness || custom) && (witness || cid < custom_commits_map.len()) {
        let pm_len = if witness { cm_pols_map.len() } else { custom_commits_map[cid].len() };
        let upto = if pol_id < pm_len { pol_id } else { pm_len };
        proof {
            if !witness {
                assert(customs_view(custom_commits_map@)[cid as int] == syms_view(custom_commits_map@[cid as int]@));
            }
        }
        let facts = if witness {
            stage_facts(cm_pols_map, stage, upto, symbols[i].name.as_str())
        } else {
            stage_facts(&custom_commits_map[cid], stage, upto, symbols[i].name.as_str())
        };
        let (pos, cnt, np) = facts;
        let cur_id = symbols[i].stage_id;
        let id: usize = match cur_id {
            None => if stage == q_stage { cnt } else { np },
            Some(x) => if x == 0 {
                if stage == q_stage { cnt } else { np }
            } else {
                x
            },
        };
        set_entry_info(symbols, i, pos, id);
        if pol_id < pm_len {
            if witness {
                set_entry_info(cm_pols_map, pol_id, pos, id);
            } else {
                let ghost outer0 = customs_view(custom_commits_map@);
                let mut inner = custom_commits_map.remove(cid);
                proof {
                    assert(syms_view(inner@) == outer0[cid as int]);
                }
                set_entry_info(&mut inner, pol_id, pos, id);
                custom_commits_map.insert(cid, inner);
                proof {
                    assert(customs_view(custom_commits_map@) =~= outer0.update(cid as int, syms_view(inner@)));
                    assert forall|c: int| 0 <= c < customs_view(custom_commits_map@).len() implies all_dims(
                        #[trigger] customs_view(custom_commits_map@)[c],
                        customs_view(custom_commits_map@)[c].len() as int,
                    ) <= usize::MAX by {
                        if c != cid {
                            assert(customs_view(custom_commits_map@)[c] == outer0[c]);
                        }
                    }
                }
            }
        }
        proof {
            let nxt = StageState {
                syms: syms_view(symbols@),
                cm: syms_view(cm_pols_map@),
                custom: customs_view(custom_commits_map@),
            };
            assert(nxt =~~= stage_info_one(cur, i as int, q_stage as int));
        }
    } else {
        proof {
            assert(cur =~~= stage_info_one(cur, i as int, q_stage as int));
        }
    }
}

/// Sets, for every witness and custom column symbol in order, its stage
/// position (the dimensions of the earlier columns of its stage in its
/// map) and, when it has none (or 0), its stage id (for the quotient stage
/// the number of earlier columns of the stage, otherwise its position by
/// name among the columns of its stage); its map entry gets the same.
pub fn set_stage_info_symbols(symbols: &mut Vec<SymbolInfo>, maps: &mut ColumnMaps, n_stages: usize)
    requires
        n_stages < usize::MAX,
        dims_fit(syms_view(old(maps).cm_pols_map@), customs_view(old(maps).custom_commits_map@)),
    ensures
        ({
            let st = stage_info_all(
                StageState {
                    syms: syms_view(old(symbols)@),
                    cm: syms_view(old(maps).cm_pols_map@),
                    custom: customs_view(old(maps).custom_commits_map@),
                },
                old(symbols)@.len() as int,
                n_stages + 1,
            );
            &&& syms_view(final(symbols)@) == st.syms
            &&& syms_view(final(maps).cm_pols_map@) == st.cm
            &&& customs_view(final(maps).custom_commits_map@) == st.custom
        }),
        final(maps).const_pols_map == old(maps).const_pols_map,
        final(maps).challenges_map == old(maps).challenges_map,
        final(maps).publics_map == old(maps).publics_map,
        final(maps).proof_values_map == old(maps).proof_values_map,
        final(maps).airgroup_values_map == old(maps).airgroup_values_map,
        final(maps).air_values_map == old(maps).air_values_map,
        final(maps).map_sections_n == old(maps).map_sections_n,
{
    let q_stage = n_stages + 1;
    let ghost st0 = StageState {
        syms: syms_view(symbols@),
        cm: syms_view(maps.cm_pols_map@),
        custom: customs_view(maps.custom_commits_map@),
    };
    let n = symbols.len();
    let mut i: usize = 0;
    while i < n
        invariant
            n == symbols@.len(),
            n == old(symbols)@.len(),
            i <= n,
            q_stage == n_stages + 1,
            st0.syms == syms_view(old(symbols)@),
            st0.cm == syms_view(old(maps).cm_pols_map@),
            st0.custom == customs_view(old(maps).custom_commits_map@),
            stage_info_all(st0, i as int, q_stage as int) == (StageState {
                syms: syms_view(symbols@),
                cm: syms_view(maps.cm_pols_map@),
                custom: customs_view(maps.custom_commits_map@),
            }),
            dims_fit(syms_view(maps.cm_pols_map@), customs_view(maps.custom_commits_map@)),
            maps.const_pols_map == old(maps).const_pols_map,
            maps.challenges_map == old(maps).challenges_map,
            maps.publics_map == old(maps).publics_map,
            maps.proof_values_map == old(maps).proof_values_map,
            maps.airgroup_values_map == old(maps).airgroup_values_map,
            maps.air_values_map == old(maps).air_values_map,
            maps.map_sections_n == old(maps).map_sections_n,
        decreases n - i,
    {
        stage_info_step(symbols, &mut maps.cm_pols_map, &mut maps.custom_commits_map, i, q_stage);
        i = i + 1;
    }
}

/// Prints the entries `ids` in turn (as constraints when `cons`), each
/// print seeing the lines the earlier ones remembered; the texts and the
/// arena after them.
pub open spec fn print_all(m: PrintMaps, av: Seq<ExprView>, ids: Seq<usize>, k: int, cons: bool) -> (Seq<Seq<char>>, Seq<ExprView>)
    decreases k,
{
    if k <= 0 {
        (Seq::empty(), av)
    } else {
        let (ts, a) = print_all(m, av, ids, k - 1, cons);
        let rank = print_rank(m, a, !cons);
        let (t, a2) = pe(m, a, ids[k - 1] as int, cons, rank, rank[ids[k - 1] as int] + 1);
        (ts.push(t), a2)
    }
}

/// Prints the entries `ids` in turn.
pub fn print_each(ctx: &PrintCtx, expressions: &mut Vec<Expression>, ids: &Vec<usize>, cons: bool) -> (r: Vec<String>)
    requires
        forall|k: int| 0 <= k < ids@.len() ==> (#[trigger] ids@[k]) < old(expressions)@.len(),
        print_ok(print_maps(ctx), arena_view(old(expressions)@), !cons),
    ensures
        (crate::parser_args::strings_view(r@), arena_view(final(expressions)@)) == print_all(
            print_maps(ctx),
            arena_view(old(expressions)@),
            ids@,
            ids@.len() as int,
            cons,
        ),
        same_but_lines(arena_view(old(expressions)@), arena_view(final(expressions)@)),
{
    let ghost m = print_maps(ctx);
    let ghost av0 = arena_view(expressions@);
    let mut out: Vec<String> = Vec::new();
    let mut k: usize = 0;
    proof {
        assert(crate::parser_args::strings_view(out@) =~= Seq::<Seq<char>>::empty());
    }
    while k < ids.len()
        invariant
            k <= ids@.len(),
            forall|t: int| 0 <= t < ids@.len() ==> (#[trigger] ids@[t]) < av0.len(),
            expressions@.len() == av0.len(),
            print_ok(m, arena_view(expressions@), !cons),
            same_but_lines(av0, arena_view(expressions@)),
            m == print_maps(ctx),
            (crate::parser_args::strings_view(out@), arena_view(expressions@)) == print_all(m, av0, ids@, k as int, cons),
        decreases ids.len() - k,
    {
        let ghost a = arena_view(expressions@);
        let ghost ts = crate::parser_args::strings_view(out@);
        let t = print_expression_no_cache(ctx, expressions, ids[k], cons);
        proof {
            lemma_print_ok_kept(m, a, arena_view(expressions@), !cons);
            crate::print_expression::lemma_same_trans(av0, a, arena_view(expressions@));
        }
        out.push(t);
        proof {
            assert(crate::parser_args::strings_view(out@) =~= ts.push(t@));
        }
        k = k + 1;
    }
    out
}

/// Constraint `c` is the constraint of an intermediate polynomial: its
/// line is `marker`.
pub open spec fn is_marked(c: ConstraintInfo, marker: Seq<char>) -> bool {
    match c.line {
        Some(l) => l@ == marker,
        None => false,
    }
}

/// The indices of the marked constraints among the first `k`.
pub open spec fn marked_upto(cs: Seq<ConstraintInfo>, marker: Seq<char>, k: int) -> Seq<usize>
    decreases k,
{
    if k <= 0 {
        Seq::empty()
    } else {
        marked_upto(cs, marker, k - 1) + if is_marked(cs[k - 1], marker) { seq![(k - 1) as usize] } else { Seq::empty() }
    }
}

/// Marks the constraints of intermediate polynomials (those whose line is
/// `<name>.ImPol`) and returns their indices, in order.
pub fn mark_im_pol_constraints(constraints: &mut Vec<ConstraintInfo>, name: &str) -> (r: Vec<usize>)
    ensures
        r@ == marked_upto(old(constraints)@, name@ + ".ImPol"@, old(constraints)@.len() as int),
        final(constraints)@.len() == old(constraints)@.len(),
        forall|k: int|
            0 <= k < old(constraints)@.len() ==> {
                let c = old(constraints)@[k];
                let d = #[trigger] final(constraints)@[k];
                &&& d.im_pol == (c.im_pol || is_marked(c, name@ + ".ImPol"@))
                &&& d.line == c.line && d.e == c.e && d.boundary == c.boundary && d.stage == c.stage
                &&& d.offset_min == c.offset_min && d.offset_max == c.offset_max
            },
{
    let marker = concat(name, ".ImPol");
    let ghost cs0 = constraints@;
    let mut out: Vec<usize> = Vec::new();
    let mut k: usize = 0;
    while k < constraints.len()
        invariant
            k <= constraints@.len(),
            constraints@.len() == cs0.len(),
            cs0 == old(constraints)@,
            marker@ == name@ + ".ImPol"@,
            out@ == marked_upto(cs0, marker@, k as int),
            forall|t: int|
                0 <= t < cs0.len() ==> {
                    let c = cs0[t];
                    let d = #[trigger] constraints@[t];
                    &&& d.im_pol == (c.im_pol || (t < k && is_marked(c, marker@)))
                    &&& d.line == c.line && d.e == c.e && d.boundary == c.boundary && d.stage == c.stage
                    &&& d.offset_min == c.offset_min && d.offset_max == c.offset_max
                },
        decreases constraints.len() - k,
    {
        let hit = match &constraints[k].line {
            Some(l) => str_is(l.as_str(), marker.as_str()),
            None => false,
        };
        if hit {
            let mut c = constraints.remove(k);
            c.im_pol = true;
            constraints.insert(k, c);
            out.push(k);
        }
        proof {
            assert(constraints@[k as int].line == cs0[k as int].line);
            assert(hit == is_marked(cs0[k as int], marker@));
            assert(out@ =~= marked_upto(cs0, marker@, k as int + 1));
        }
        k = k + 1;
    }
    out
}

/// The position of `k` among `marked`, if any.
pub open spec fn marked_pos(marked: Seq<usize>, k: int) -> Option<int> {
    if exists|j: int| 0 <= j < marked.len() && marked[j] == k {
        Some(choose|j: int| 0 <= j < marked.len() && marked[j] == k)
    } else {
        None
    }
}

/// The final line of constraint `k`: a marked one gets its text (or
/// nothing when there is none), any other keeps its line; then ` == 0`.
pub open spec fn final_line(c: ConstraintInfo, k: int, marked: Seq<usize>, texts: Seq<Seq<char>>) -> Seq<char> {
    let base = match marked_pos(marked, k) {
        Some(j) => if j < texts.len() { texts[j] } else { Seq::empty() },
        None => match c.line {
            Some(l) => l@,
            None => Seq::empty(),
        },
    };
    base + " == 0"@
}

/// Gives the marked constraints (at distinct indices) their texts and ends
/// every line with ` == 0`.
pub fn finish_constraint_lines(constraints: &mut Vec<ConstraintInfo>, marked: &Vec<usize>, texts: &Vec<String>)
    requires
        forall|a: int, b: int| 0 <= a < b < marked@.len() ==> marked@[a] != marked@[b],
    ensures
        final(constraints)@.len() == old(constraints)@.len(),
        forall|k: int|
            0 <= k < old(constraints)@.len() ==> {
                let c = old(constraints)@[k];
                let d = #[trigger] final(constraints)@[k];
                &&& d.line matches Some(l) && l@ == final_line(c, k, marked@, crate::parser_args::strings_view(texts@))
                &&& d.im_pol == c.im_pol && d.e == c.e && d.boundary == c.boundary && d.stage == c.stage
                &&& d.offset_min == c.offset_min && d.offset_max == c.offset_max
            },
{
    let ghost cs0 = constraints@;
    let ghost tv = crate::parser_args::strings_view(texts@);
    let mut k: usize = 0;
    while k < constraints.len()
        invariant
            k <= constraints@.len(),
            constraints@.len() == cs0.len(),
            cs0 == old(constraints)@,
            tv == crate::parser_args::strings_view(texts@),
            forall|a: int, b: int| 0 <= a < b < marked@.len() ==> marked@[a] != marked@[b],
            forall|t: int|
                0 <= t < cs0.len() ==> {
                    let c = cs0[t];
                    let d = #[trigger] constraints@[t];
                    &&& t < k ==> (d.line matches Some(l) && l@ == final_line(c, t, marked@, tv))
                    &&& t >= k ==> d.line == c.line
                    &&& d.im_pol == c.im_pol && d.e == c.e && d.boundary == c.boundary && d.stage == c.stage
                    &&& d.offset_min == c.offset_min && d.offset_max == c.offset_max
                },
        decreases constraints.len() - k,
    {
        let mut j: usize = 0;
        let mut found: Option<usize> = None;
        while j < marked.len() && found.is_none()
            invariant
                j <= marked@.len(),
                match found {
                    Some(x) => x < marked@.len() && marked@[x as int] == k,
                    None => forall|t: int| 0 <= t < j ==> marked@[t] != k,
                },
            decreases marked.len() - j + (if found is None { 1int } else { 0int }),
        {
            if marked[j] == k {
                found = Some(j);
            } else {
                j = j + 1;
            }
        }
        let mut c = constraints.remove(k);
        let base = match found {
            Some(x) => if x < texts.len() { owned(texts[x].as_str()) } else { String::new() },
            None => match &c.line {
                Some(l) => owned(l.as_str()),
                None => String::new(),
            },
        };
        proof {
            match found {
                Some(x) => {
                    assert(marked@[x as int] == k);
                    let w = choose|w: int| 0 <= w < marked@.len() && marked@[w] == k;
                    assert(w == x as int);
                    if x < texts@.len() {
                        assert(tv[x as int] == texts@[x as int]@);
                    }
                },
                None => {
                    assert(!(exists|w: int| 0 <= w < marked@.len() && marked@[w] == k));
                },
            }
        }
        c.line = Some(concat(base.as_str(), " == 0"));
        constraints.insert(k, c);
        k = k + 1;
    }
}

/// Stage-1 witness columns that are not intermediate polynomials.
pub open spec fn stage1_commitments(cm: Seq<SymbolInfo>, k: int) -> int
    decreases k,
{
    if k <= 0 {
        0
    } else {
        stage1_commitments(cm, k - 1) + if cm[k - 1].stage == Some(1usize) && !(cm[k - 1].name@.len() >= 6
            && cm[k - 1].name@.subrange(cm[k - 1].name@.len() - 6, cm[k - 1].name@.len() as int) == ".ImPol"@) {
            1int
        } else {
            0
        }
    }
}

/// `s` ends with `suffix`.
fn ends_with(s: &str, suffix: &str) -> (b: bool)
    ensures
        b == (s@.len() >= suffix@.len() && s@.subrange(s@.len() - suffix@.len(), s@.len() as int) == suffix@),
{
    let n = s.unicode_len();
    let m = suffix.unicode_len();
    if n < m {
        return false;
    }
    let mut k: usize = 0;
    while k < m
        invariant
            n == s@.len(),
            m == suffix@.len(),
            m <= n,
            k <= m,
            forall|t: int| 0 <= t < k ==> s@[n - m + t] == suffix@[t],
        decreases m - k,
    {
        if s.get_char(n - m + k) != suffix.get_char(k) {
            proof {
                assert(s@.subrange(n - m, n as int)[k as int] != suffix@[k as int]);
            }
            return false;
        }
        k = k + 1;
    }
    proof {
        assert(s@.subrange(n - m, n as int) =~= suffix@);
    }
    true
}

/// The number of stage-1 witness columns that are not intermediate
/// polynomials.
pub fn count_stage1_commitments(cm_pols_map: &Vec<SymbolInfo>) -> (r: usize)
    ensures
        r == stage1_commitments(cm_pols_map@, cm_pols_map@.len() as int),
{
    let mut c: usize = 0;
    let mut k: usize = 0;
    while k < cm_pols_map.len()
        invariant
            k <= cm_pols_map@.len(),
            c == stage1_commitments(cm_pols_map@, k as int),
            c <= k,
        decreases cm_pols_map.len() - k,
    {
        let p = &cm_pols_map[k];
        proof {
            reveal_strlit(".ImPol");
        }
        if p.stage == Some(1usize) && !ends_with(p.name.as_str(), ".ImPol") {
            c = c + 1;
        }
        k = k + 1;
    }
    c
}

/// The (dimension, expression) of each intermediate-polynomial column among
/// the first `k`.
pub open spec fn im_pol_cols(cm: Seq<SymbolInfo>, k: int) -> Seq<(usize, usize)>
    decreases k,
{
    if k <= 0 {
        Seq::empty()
    } else {
        im_pol_cols(cm, k - 1) + if cm[k - 1].im_pol {
            seq![(cm[k - 1].dim, match cm[k - 1].exp_id { Some(x) => x, None => 0 })]
        } else {
            Seq::empty()
        }
    }
}

/// The dimension and expression of each intermediate-polynomial column.
pub fn im_pol_columns(cm_pols_map: &Vec<SymbolInfo>) -> (r: Vec<(usize, usize)>)
    ensures
        r@ == im_pol_cols(cm_pols_map@, cm_pols_map@.len() as int),
{
    let mut out: Vec<(usize, usize)> = Vec::new();
    let mut k: usize = 0;
    while k < cm_pols_map.len()
        invariant
            k <= cm_pols_map@.len(),
            out@ == im_pol_cols(cm_pols_map@, k as int),
        decreases cm_pols_map.len() - k,
    {
        let p = &cm_pols_map[k];
        if p.im_pol {
            let e: usize = match p.exp_id { Some(x) => x, None => 0 };
            out.push((p.dim, e));
        }
        proof {
            assert(out@ =~= im_pol_cols(cm_pols_map@, k as int + 1));
        }
        k = k + 1;
    }
    out
}

/// The texts of dimension-1 columns, then those of the others.
pub open spec fn split_texts(cols: Seq<(usize, usize)>, texts: Seq<Seq<char>>, k: int) -> (Seq<Seq<char>>, Seq<Seq<char>>)
    decreases k,
{
    if k <= 0 {
        (Seq::empty(), Seq::empty())
    } else {
        let (b, e) = split_texts(cols, texts, k - 1);
        let t = if k - 1 < texts.len() { texts[k - 1] } else { Seq::empty() };
        if cols[k - 1].0 == 1 { (b.push(t), e) } else { (b, e.push(t)) }
    }
}

/// Sorts the texts of the intermediate polynomials into those of the base
/// field and those of the extension (an empty text where none is given).
pub fn split_im_pol_texts(cols: &Vec<(usize, usize)>, texts: &Vec<String>) -> (r: (Vec<String>, Vec<String>))
    ensures
        (crate::parser_args::strings_view(r.0@), crate::parser_args::strings_view(r.1@)) == split_texts(
            cols@,
            crate::parser_args::strings_view(texts@),
            cols@.len() as int,
        ),
{
    let ghost tv = crate::parser_args::strings_view(texts@);
    let mut base: Vec<String> = Vec::new();
    let mut ext: Vec<String> = Vec::new();
    let mut k: usize = 0;
    proof {
        assert(crate::parser_args::strings_view(base@) =~= Seq::<Seq<char>>::empty());
        assert(crate::parser_args::strings_view(ext@) =~= Seq::<Seq<char>>::empty());
    }
    while k < cols.len()
        invariant
            k <= cols@.len(),
            tv == crate::parser_args::strings_view(texts@),
            (crate::parser_args::strings_view(base@), crate::parser_args::strings_view(ext@)) == split_texts(cols@, tv, k as int),
        decreases cols.len() - k,
    {
        let t = if k < texts.len() { owned(texts[k].as_str()) } else { String::new() };
        proof {
            if k < texts@.len() {
                assert(tv[k as int] == texts@[k as int]@);
            }
        }
        let ghost b0 = base@;
        let ghost e0 = ext@;
        if cols[k].0 == 1 {
            base.push(t);
            proof {
                assert(crate::parser_args::strings_view(base@) =~= crate::parser_args::strings_view(b0).push(t@));
            }
        } else {
            ext.push(t);
            proof {
                assert(crate::parser_args::strings_view(ext@) =~= crate::parser_args::strings_view(e0).push(t@));
            }
        }
        k = k + 1;
    }
    (base, ext)
}

proof fn lemma_marked_increasing(cs: Seq<ConstraintInfo>, marker: Seq<char>, k: int)
    requires
        0 <= k <= cs.len(),
        cs.len() <= usize::MAX,
    ensures
        forall|a: int, b: int| 0 <= a < b < marked_upto(cs, marker, k).len() ==> marked_upto(cs, marker, k)[a] < marked_upto(
            cs,
            marker,
            k,
        )[b],
        forall|a: int| 0 <= a < marked_upto(cs, marker, k).len() ==> marked_upto(cs, marker, k)[a] < k,
    decreases k,
{
    if k > 0 {
        lemma_marked_increasing(cs, marker, k - 1);
        let prev = marked_upto(cs, marker, k - 1);
        let cur = marked_upto(cs, marker, k);
        assert forall|a: int| 0 <= a < cur.len() implies cur[a] < k by {
            if a < prev.len() {
                assert(cur[a] == prev[a]);
            }
        }
        assert forall|a: int, b: int| 0 <= a < b < cur.len() implies cur[a] < cur[b] by {
            if b < prev.len() {
                assert(cur[a] == prev[a] && cur[b] == prev[b]);
            } else {
                assert(cur[a] == prev[a]);
                assert(prev[a] < k - 1);
                assert(cur[b] == (k - 1) as usize);
            }
        }
    }
}

/// What mapping an AIR yields besides the maps: the marked constraints, the
/// intermediate-polynomial columns (dimension, expression), the stage-1
/// columns that are not intermediate polynomials, and the texts of the
/// intermediate polynomials (base field, then extension).
pub struct MapOutcome {
    pub marked: Vec<usize>,
    pub im_pols: Vec<(usize, usize)>,
    pub n_commitments_stage1: usize,
    pub im_pols_info: (Vec<String>, Vec<String>),
}

/// The printing maps of the column maps.
pub open spec fn column_print_maps(m: ColumnMaps) -> PrintMaps {
    PrintMaps {
        cm: m.cm_pols_map@,
        cnst: m.const_pols_map@,
        custom: m.custom_commits_map@.map_values(|v: Vec<SymbolInfo>| v@),
        publics: m.publics_map@,
        challenges: m.challenges_map@,
        air_values: m.air_values_map@,
        airgroup_values: m.airgroup_values_map@,
        proof_values: m.proof_values_map@,
    }
}

/// Printing maps whose symbols have the models of `mv`.
pub open spec fn printing_matches(pm: PrintMaps, mv: MapsView) -> bool {
    &&& syms_view(pm.cm) == mv.cm
    &&& syms_view(pm.cnst) == mv.cnst
    &&& syms_view(pm.publics) == mv.publics
    &&& syms_view(pm.challenges) == mv.challenges
    &&& syms_view(pm.air_values) == mv.air_values
    &&& syms_view(pm.airgroup_values) == mv.airgroup_values
    &&& syms_view(pm.proof_values) == mv.proof_values
    &&& pm.custom.map_values(|v: Seq<SymbolInfo>| syms_view(v)) == mv.custom
}

/// The texts of the marked constraints' expressions (expanded), printed in
/// order when there is something to print, and the arena after printing.
pub open spec fn marked_texts(m: PrintMaps, av: Seq<ExprView>, cs: Seq<ConstraintInfo>, marked: Seq<usize>) -> (
    Seq<Seq<char>>,
    Seq<ExprView>,
) {
    let cids = Seq::new(marked.len(), |j: int| cs[marked[j] as int].e);
    if marked.len() > 0 && av.len() > 0 {
        print_all(m, av, cids, cids.len() as int, true)
    } else {
        (Seq::empty(), av)
    }
}

/// The texts of the intermediate polynomials' expressions, printed in order,
/// and the arena after printing.
pub open spec fn im_pol_texts(m: PrintMaps, av: Seq<ExprView>, im_pols: Seq<(usize, usize)>) -> (
    Seq<Seq<char>>,
    Seq<ExprView>,
) {
    let iids = Seq::new(im_pols.len(), |j: int| im_pols[j].1);
    if im_pols.len() > 0 {
        print_all(m, av, iids, iids.len() as int, false)
    } else {
        (Seq::empty(), av)
    }
}

/// Every column of `cm` that is an intermediate polynomial names an
/// expression below `n` (its expression, or the first one when it has none).
pub open spec fn im_pol_exprs_below(cm: Seq<SymView>, n: int) -> bool {
    forall|j: int|
        0 <= j < cm.len() && (#[trigger] cm[j]).im_pol ==> (match cm[j].exp_id {
            Some(x) => x as int,
            None => 0,
        }) < n
}

proof fn lemma_im_pol_cols_below(cm: Seq<SymbolInfo>, k: int, n: int)
    requires
        0 <= k <= cm.len(),
        im_pol_exprs_below(syms_view(cm), n),
    ensures
        forall|j: int| 0 <= j < im_pol_cols(cm, k).len() ==> (#[trigger] im_pol_cols(cm, k)[j]).1 < n,
    decreases k,
{
    if k > 0 {
        lemma_im_pol_cols_below(cm, k - 1, n);
        let prev = im_pol_cols(cm, k - 1);
        assert(syms_view(cm)[k - 1] == sym_view(cm[k - 1]));
        assert forall|j: int| 0 <= j < im_pol_cols(cm, k).len() implies (#[trigger] im_pol_cols(cm, k)[j]).1 < n by {
            if j < prev.len() {
                assert(im_pol_cols(cm, k)[j] == prev[j]);
            }
        }
    }
}

/// Maps the symbols of an AIR to columns, sets their stage positions and
/// marks the constraints of its intermediate polynomials. Every constraint
/// line then ends with ` == 0`; a marked constraint's line is, unless mapping
/// a recursion (where nothing is printed), the expanded text of its
/// expression, else empty. Outside a recursion the texts of the intermediate
/// polynomials are printed too.
pub fn map(
    symbols: &mut Vec<SymbolInfo>,
    maps: &mut ColumnMaps,
    custom_commits: &[CustomCommitInfo],
    n_stages: usize,
    name: &str,
    constraints: &mut Vec<ConstraintInfo>,
    expressions: &mut Vec<Expression>,
    recursion: bool,
) -> (r: MapOutcome)
    requires
        n_stages < usize::MAX,
        map_ok(maps_view(*old(maps)), syms_view(old(symbols)@)),
        ({
            let m1 = map_all(maps_view(*old(maps)), syms_view(old(symbols)@), old(symbols)@.len() as int, custom_commits@);
            dims_fit(m1.cm, m1.custom)
        }),
        !recursion ==> ({
            let m1 = map_all(maps_view(*old(maps)), syms_view(old(symbols)@), old(symbols)@.len() as int, custom_commits@);
            let st = stage_info_all(
                StageState { syms: syms_view(old(symbols)@), cm: m1.cm, custom: m1.custom },
                old(symbols)@.len() as int,
                n_stages + 1,
            );
            let mv = MapsView { cm: st.cm, custom: st.custom, ..m1 };
            let av = arena_view(old(expressions)@);
            &&& forall|pm: PrintMaps| #[trigger] printing_matches(pm, mv) ==> print_ok(pm, av, false) && print_ok(pm, av, true)
            &&& forall|k: int|
                0 <= k < old(constraints)@.len() && is_marked(#[trigger] old(constraints)@[k], name@ + ".ImPol"@)
                    ==> old(constraints)@[k].e < old(expressions)@.len()
            &&& im_pol_exprs_below(st.cm, old(expressions)@.len() as int)
        }),
    ensures
        ({
            let m1 = map_all(maps_view(*old(maps)), syms_view(old(symbols)@), old(symbols)@.len() as int, custom_commits@);
            let st = stage_info_all(
                StageState { syms: syms_view(old(symbols)@), cm: m1.cm, custom: m1.custom },
                old(symbols)@.len() as int,
                n_stages + 1,
            );
            let marker = name@ + ".ImPol"@;
            let pm = column_print_maps(*final(maps));
            let (ts, av1) = marked_texts(pm, arena_view(old(expressions)@), old(constraints)@, r.marked@);
            let (ts2, av2) = im_pol_texts(pm, av1, r.im_pols@);
            &&& syms_view(final(symbols)@) == st.syms
            &&& maps_view(*final(maps)) == (MapsView { cm: st.cm, custom: st.custom, ..m1 })
            &&& keys_distinct(maps_view(*old(maps)).sections) ==> keys_distinct(maps_view(*final(maps)).sections)
            &&& r.marked@ == marked_upto(old(constraints)@, marker, old(constraints)@.len() as int)
            &&& r.im_pols@ == im_pol_cols(final(maps).cm_pols_map@, final(maps).cm_pols_map@.len() as int)
            &&& r.n_commitments_stage1 == stage1_commitments(final(maps).cm_pols_map@, final(maps).cm_pols_map@.len() as int)
            &&& final(constraints)@.len() == old(constraints)@.len()
            &&& forall|k: int|
                0 <= k < old(constraints)@.len() ==> {
                    let c = old(constraints)@[k];
                    let d = #[trigger] final(constraints)@[k];
                    &&& d.im_pol == (c.im_pol || is_marked(c, marker))
                    &&& recursion ==> (d.line matches Some(l) && l@ == final_line(c, k, r.marked@, Seq::empty()))
                    &&& !recursion ==> (d.line matches Some(l) && l@ == final_line(c, k, r.marked@, ts))
                    &&& d.e == c.e && d.boundary == c.boundary && d.stage == c.stage
                    &&& d.offset_min == c.offset_min && d.offset_max == c.offset_max
                }
            &&& recursion ==> final(expressions)@ == old(expressions)@ && r.im_pols_info.0@.len() == 0
                && r.im_pols_info.1@.len() == 0
            &&& !recursion ==> arena_view(final(expressions)@) == av2
            &&& !recursion ==> (crate::parser_args::strings_view(r.im_pols_info.0@), crate::parser_args::strings_view(
                r.im_pols_info.1@,
            )) == split_texts(r.im_pols@, ts2, r.im_pols@.len() as int)
        }),
{
    proof {
        if keys_distinct(maps_view(*maps).sections) {
            lemma_map_all_distinct(maps_view(*maps), syms_view(symbols@), symbols@.len() as int, custom_commits@);
        }
    }
    map_symbols(maps, symbols.as_slice(), custom_commits);
    set_stage_info_symbols(symbols, maps, n_stages);
    let ghost cs0 = constraints@;
    let marked = mark_im_pol_constraints(constraints, name);
    let ghost cs1 = constraints@;
    proof {
        assert(old(constraints)@.len() == constraints@.len());
        assert(constraints@.len() == constraints.len());
        lemma_marked_increasing(cs0, name@ + ".ImPol"@, cs0.len() as int);
        assert(maps_view(*maps) =~~= (MapsView {
            cm: syms_view(maps.cm_pols_map@),
            custom: customs_view(maps.custom_commits_map@),
            ..map_all(maps_view(*old(maps)), syms_view(old(symbols)@), old(symbols)@.len() as int, custom_commits@)
        }));
    }
    let im_pols = im_pol_columns(&maps.cm_pols_map);
    let n1 = count_stage1_commitments(&maps.cm_pols_map);
    if recursion {
        let none: Vec<String> = Vec::new();
        proof {
            assert(crate::parser_args::strings_view(none@) =~= Seq::<Seq<char>>::empty());
        }
        finish_constraint_lines(constraints, &marked, &none);
        let info: (Vec<String>, Vec<String>) = (Vec::new(), Vec::new());
        MapOutcome { marked, im_pols, n_commitments_stage1: n1, im_pols_info: info }
    } else {
        let ctx = PrintCtx {
            cm_pols_map: &maps.cm_pols_map,
            const_pols_map: &maps.const_pols_map,
            custom_commits_map: &maps.custom_commits_map,
            publics_map: &maps.publics_map,
            challenges_map: &maps.challenges_map,
            air_values_map: &maps.air_values_map,
            airgroup_values_map: &maps.airgroup_values_map,
            proof_values_map: &maps.proof_values_map,
        };
        proof {
            let pm = print_maps(&ctx);
            assert(pm == column_print_maps(*maps));
            assert(pm.custom.map_values(|v: Seq<SymbolInfo>| syms_view(v)) =~= customs_view(maps.custom_commits_map@));
            assert(printing_matches(pm, maps_view(*maps)));
            lemma_im_pol_cols_below(maps.cm_pols_map@, maps.cm_pols_map@.len() as int, expressions@.len() as int);
            assert forall|j: int| 0 <= j < marked@.len() implies (#[trigger] marked@[j]) < cs1.len() && cs1[marked@[j] as int].e
                < expressions@.len() by {
                lemma_marked_members(cs0, name@ + ".ImPol"@, cs0.len() as int, j);
                assert(cs1[marked@[j] as int].e == cs0[marked@[j] as int].e);
            }
            let cids0 = Seq::new(marked@.len(), |j: int| cs0[marked@[j] as int].e);
            let cids1 = Seq::new(marked@.len(), |j: int| cs1[marked@[j] as int].e);
            assert(cids0 =~= cids1);
        }
        let (base, ext) = describe_im_pols(&ctx, expressions, constraints, &marked, &im_pols);
        MapOutcome { marked, im_pols, n_commitments_stage1: n1, im_pols_info: (base, ext) }
    }
}

/// A marked constraint bears the marker.
proof fn lemma_marked_members(cs: Seq<ConstraintInfo>, marker: Seq<char>, k: int, j: int)
    requires
        0 <= k <= cs.len(),
        cs.len() <= usize::MAX,
        0 <= j < marked_upto(cs, marker, k).len(),
    ensures
        0 <= marked_upto(cs, marker, k)[j] < k,
        is_marked(cs[marked_upto(cs, marker, k)[j] as int], marker),
    decreases k,
{
    if k > 0 {
        let prev = marked_upto(cs, marker, k - 1);
        let cur = marked_upto(cs, marker, k);
        let tail: Seq<usize> = if is_marked(cs[k - 1], marker) { seq![(k - 1) as usize] } else { Seq::empty() };
        assert(cur == prev + tail);
        if j < prev.len() {
            lemma_marked_members(cs, marker, k - 1, j);
            assert(cur[j] == prev[j]);
        } else {
            assert(cur[j] == tail[j - prev.len()]);
        }
    }
}

/// Completes the mapping of an AIR that is not a recursion: the marked
/// constraints get the printed text of their expressions as lines (when
/// the arena holds any), every line ends with ` == 0`, and the expressions
/// of the intermediate polynomials are printed, those of the base field
/// apart from those of the extension.
pub fn describe_im_pols(
    ctx: &PrintCtx,
    expressions: &mut Vec<Expression>,
    constraints: &mut Vec<ConstraintInfo>,
    marked: &Vec<usize>,
    im_pols: &Vec<(usize, usize)>,
) -> (r: (Vec<String>, Vec<String>))
    requires
        print_ok(print_maps(ctx), arena_view(old(expressions)@), false),
        print_ok(print_maps(ctx), arena_view(old(expressions)@), true),
        forall|a: int, b: int| 0 <= a < b < marked@.len() ==> marked@[a] != marked@[b],
        forall|j: int|
            0 <= j < marked@.len() ==> (#[trigger] marked@[j]) < old(constraints)@.len() && old(constraints)@[marked@[j] as int].e
                < old(expressions)@.len(),
        forall|j: int| 0 <= j < im_pols@.len() ==> (#[trigger] im_pols@[j]).1 < old(expressions)@.len(),
    ensures
        ({
            let m = print_maps(ctx);
            let av0 = arena_view(old(expressions)@);
            let cids = Seq::new(marked@.len(), |j: int| old(constraints)@[marked@[j] as int].e);
            let (ts, av1) = if marked@.len() > 0 && av0.len() > 0 {
                print_all(m, av0, cids, cids.len() as int, true)
            } else {
                (Seq::empty(), av0)
            };
            let iids = Seq::new(im_pols@.len(), |j: int| im_pols@[j].1);
            let (ts2, av2) = if im_pols@.len() > 0 { print_all(m, av1, iids, iids.len() as int, false) } else { (Seq::empty(), av1) };
            &&& final(constraints)@.len() == old(constraints)@.len()
            &&& forall|k: int|
                0 <= k < old(constraints)@.len() ==> {
                    let c = old(constraints)@[k];
                    let d = #[trigger] final(constraints)@[k];
                    &&& d.line matches Some(l) && l@ == final_line(c, k, marked@, ts)
                    &&& d.im_pol == c.im_pol && d.e == c.e && d.boundary == c.boundary && d.stage == c.stage
                    &&& d.offset_min == c.offset_min && d.offset_max == c.offset_max
                }
            &&& arena_view(final(expressions)@) == av2
            &&& (crate::parser_args::strings_view(r.0@), crate::parser_args::strings_view(r.1@)) == split_texts(
                im_pols@,
                ts2,
                im_pols@.len() as int,
            )
        }),
{
    let ghost m = print_maps(ctx);
    let ghost av0 = arena_view(expressions@);
    let mut cids: Vec<usize> = Vec::new();
    let mut j: usize = 0;
    while j < marked.len()
        invariant
            j <= marked@.len(),
            constraints@ == old(constraints)@,
            forall|t: int|
                0 <= t < marked@.len() ==> (#[trigger] marked@[t]) < old(constraints)@.len() && old(constraints)@[marked@[t] as int].e
                    < old(expressions)@.len(),
            cids@ =~= Seq::new(j as nat, |t: int| old(constraints)@[marked@[t] as int].e),
        decreases marked.len() - j,
    {
        cids.push(constraints[marked[j]].e);
        j = j + 1;
    }
    let texts = if marked.len() > 0 && expressions.len() > 0 {
        print_each(ctx, expressions, &cids, true)
    } else {
        let v: Vec<String> = Vec::new();
        proof {
            assert(crate::parser_args::strings_view(v@) =~= Seq::<Seq<char>>::empty());
        }
        v
    };
    let ghost av1 = arena_view(expressions@);
    proof {
        if marked@.len() > 0 && av0.len() > 0 {
            lemma_print_ok_kept(m, av0, av1, true);
        }
    }
    finish_constraint_lines(constraints, marked, &texts);
    let mut iids: Vec<usize> = Vec::new();
    let mut j: usize = 0;
    while j < im_pols.len()
        invariant
            j <= im_pols@.len(),
            expressions@.len() == old(expressions)@.len(),
            forall|t: int| 0 <= t < im_pols@.len() ==> (#[trigger] im_pols@[t]).1 < old(expressions)@.len(),
            iids@ =~= Seq::new(j as nat, |t: int| im_pols@[t].1),
        decreases im_pols.len() - j,
    {
        iids.push(im_pols[j].1);
        j = j + 1;
    }
    let im_texts = if im_pols.len() > 0 {
        print_each(ctx, expressions, &iids, false)
    } else {
        let v: Vec<String> = Vec::new();
        proof {
            assert(crate::parser_args::strings_view(v@) =~= Seq::<Seq<char>>::empty());
        }
        v
    };
    split_im_pol_texts(im_pols, &im_texts)
}


// ---------------------------------------------------------------------------
// Stage positions
// ---------------------------------------------------------------------------

/// A symbol's stage (0 when it has none).
pub open spec fn stage_of(x: Option<usize>) -> usize {
    match x {
        Some(v) => v,
        None => 0,
    }
}

/// The map entry a symbol names (the first when it names none).
pub open spec fn pol_of(x: SymView) -> int {
    match x.pol_id {
        Some(v) => v as int,
        None => 0,
    }
}

/// Witness symbol `x` names map entry `p`.
pub open spec fn names_entry(x: SymView, p: int) -> bool {
    x.sym_type == SymType::Witness && pol_of(x) == p
}

/// Every symbol naming entry `p` among the first `k` has the entry's stage,
/// and one does.
pub open spec fn named_in_stage(syms: Seq<SymView>, cm: Seq<SymView>, p: int, k: int) -> bool {
    &&& cm[p].stage is Some
    &&& exists|j: int| 0 <= j < k && names_entry(#[trigger] syms[j], p)
    &&& forall|j: int| 0 <= j < k && names_entry(#[trigger] syms[j], p) ==> syms[j].stage == cm[p].stage
}

proof fn lemma_stage_dims_same(a: Seq<SymView>, b: Seq<SymView>, st: usize, k: int)
    requires
        0 <= k <= a.len(),
        a.len() == b.len(),
        forall|j: int| 0 <= j < a.len() ==> (#[trigger] a[j]).dim == b[j].dim && a[j].stage == b[j].stage,
    ensures
        stage_dims(a, st, k) == stage_dims(b, st, k),
    decreases k,
{
    if k > 0 {
        lemma_stage_dims_same(a, b, st, k - 1);
    }
}

/// What setting the stage information of the first `k` symbols leaves: the
/// map keeps its stages and dimensions, later symbols are untouched, and
/// every witness symbol (and every map entry named consistently) has the
/// dimensions of the earlier entries of its stage as stage position.
proof fn lemma_stage_info_prefix(st0: StageState, k: int, q: int)
    requires
        0 <= k <= st0.syms.len(),
        dims_fit(st0.cm, st0.custom),
    ensures
        ({
            let st = stage_info_all(st0, k, q);
            &&& st.syms.len() == st0.syms.len()
            &&& st.cm.len() == st0.cm.len()
            &&& forall|j: int| 0 <= j < st0.cm.len() ==> (#[trigger] st.cm[j]).stage == st0.cm[j].stage && st.cm[j].dim
                == st0.cm[j].dim
            &&& forall|j: int| k <= j < st0.syms.len() ==> #[trigger] st.syms[j] == st0.syms[j]
            &&& forall|j: int|
                0 <= j < k && st0.syms[j].sym_type == SymType::Witness && pol_of(st0.syms[j]) < st0.cm.len() ==> (#[trigger] st.syms[j]).stage_pos == Some(
                    stage_dims(st0.cm, stage_of(st0.syms[j].stage), pol_of(st0.syms[j])) as usize,
                )
            &&& forall|p: int|
                0 <= p < st0.cm.len() && named_in_stage(st0.syms, st0.cm, p, k) ==> (#[trigger] st.cm[p]).stage_pos == Some(
                    stage_dims(st0.cm, st0.cm[p].stage.unwrap(), p) as usize,
                )
        }),
    decreases k,
{
    if k > 0 {
        lemma_stage_info_prefix(st0, k - 1, q);
        let prev = stage_info_all(st0, k - 1, q);
        let st = stage_info_all(st0, k, q);
        assert(st == stage_info_one(prev, k - 1, q));
        let i = k - 1;
        let x = prev.syms[i];
        assert(x == st0.syms[i]);
        let stage = match x.stage { Some(v) => v, None => 0 };
        let pol_id = match x.pol_id { Some(v) => v as int, None => 0 };
        let witness = x.sym_type == SymType::Witness;
        lemma_stage_dims_same(prev.cm, st0.cm, stage, if pol_id < prev.cm.len() { pol_id } else { prev.cm.len() as int });
        if witness && pol_id < st0.cm.len() {
            lemma_stage_dims_bound(st0.cm, stage, pol_id, st0.cm.len() as int);
        }
        assert forall|j: int| 0 <= j < st0.cm.len() implies (#[trigger] st.cm[j]).stage == st0.cm[j].stage && st.cm[j].dim
            == st0.cm[j].dim by {
            assert(prev.cm[j].stage == st0.cm[j].stage);
        }
        assert forall|j: int|
            0 <= j < k && st0.syms[j].sym_type == SymType::Witness && pol_of(st0.syms[j]) < st0.cm.len() implies (#[trigger] st.syms[j]).stage_pos == Some(
            stage_dims(st0.cm, stage_of(st0.syms[j].stage), pol_of(st0.syms[j])) as usize,
        ) by {
            if j < i {
                assert(st.syms[j] == prev.syms[j]);
            }
        }
        if witness && pol_id < prev.cm.len() {
            assert(st.cm[pol_id].stage_pos == Some(stage_dims(prev.cm, stage, pol_id) as usize));
            assert(forall|p: int| 0 <= p < st.cm.len() && p != pol_id ==> #[trigger] st.cm[p] == prev.cm[p]);
        } else {
            assert(st.cm == prev.cm);
        }
        assert forall|p: int| 0 <= p < st0.cm.len() && named_in_stage(st0.syms, st0.cm, p, k) implies (#[trigger] st.cm[p]).stage_pos
            == Some(stage_dims(st0.cm, st0.cm[p].stage.unwrap(), p) as usize) by {
            if names_entry(st0.syms[i], p) {
                assert(st0.syms[i].stage == st0.cm[p].stage);
                lemma_stage_dims_bound(st0.cm, stage, p, st0.cm.len() as int);
            } else {
                let j0 = choose|j: int| 0 <= j < k && names_entry(#[trigger] st0.syms[j], p);
                assert(j0 < i);
                assert(named_in_stage(st0.syms, st0.cm, p, k - 1));
                assert(st.cm[p] == prev.cm[p]);
            }
        }
    }
}

proof fn lemma_stage_dims_first(pm: Seq<SymView>, st: usize, p: int)
    requires
        0 <= p <= pm.len(),
        forall|k: int| 0 <= k < p ==> (#[trigger] pm[k]).stage != Some(st),
    ensures
        stage_dims(pm, st, p) == 0,
    decreases p,
{
    if p > 0 {
        lemma_stage_dims_first(pm, st, p - 1);
    }
}

proof fn lemma_stage_dims_next(pm: Seq<SymView>, st: usize, p: int, q: int)
    requires
        0 <= p < q <= pm.len(),
        pm[p].stage == Some(st),
        forall|k: int| p < k < q ==> (#[trigger] pm[k]).stage != Some(st),
    ensures
        stage_dims(pm, st, q) == stage_dims(pm, st, p) + pm[p].dim,
    decreases q,
{
    if q > p + 1 {
        lemma_stage_dims_next(pm, st, p, q - 1);
    }
}

/// The first witness column of a stage starts at position 0.
pub proof fn lemma_stage_pos_first(st0: StageState, q: int, i: int)
    requires
        dims_fit(st0.cm, st0.custom),
        0 <= i < st0.syms.len(),
        st0.syms[i].sym_type == SymType::Witness,
        st0.syms[i].pol_id matches Some(p) && (p as int) < st0.cm.len() && forall|k: int|
            0 <= k < p ==> (#[trigger] st0.cm[k]).stage != Some(stage_of(st0.syms[i].stage)),
    ensures
        stage_info_all(st0, st0.syms.len() as int, q).syms[i].stage_pos == Some(0usize),
{
    lemma_stage_info_prefix(st0, st0.syms.len() as int, q);
    lemma_stage_dims_first(st0.cm, stage_of(st0.syms[i].stage), st0.syms[i].pol_id.unwrap() as int);
}

/// The witness columns of a stage lie one after another: a column starts
/// where the previous column of its stage in the map ends, so columns of one
/// stage take disjoint ranges `[stage_pos, stage_pos + dim)`.
pub proof fn lemma_stage_pos_next(st0: StageState, q: int, i: int, j: int)
    requires
        dims_fit(st0.cm, st0.custom),
        0 <= i < st0.syms.len(),
        0 <= j < st0.syms.len(),
        st0.syms[i].sym_type == SymType::Witness,
        st0.syms[j].sym_type == SymType::Witness,
        st0.syms[i].stage == st0.syms[j].stage,
        st0.syms[i].pol_id matches Some(a) && st0.syms[j].pol_id matches Some(b) && a < b && (b as int) < st0.cm.len()
            && st0.cm[a as int].stage == Some(stage_of(st0.syms[i].stage)) && forall|k: int|
            a < k < b ==> (#[trigger] st0.cm[k]).stage != Some(stage_of(st0.syms[i].stage)),
    ensures
        ({
            let st = stage_info_all(st0, st0.syms.len() as int, q);
            st.syms[j].stage_pos.unwrap() as int == st.syms[i].stage_pos.unwrap() as int + st0.cm[
                st0.syms[i].pol_id.unwrap() as int
            ].dim
        }),
{
    let a = st0.syms[i].pol_id.unwrap() as int;
    let b = st0.syms[j].pol_id.unwrap() as int;
    let s = stage_of(st0.syms[i].stage);
    lemma_stage_info_prefix(st0, st0.syms.len() as int, q);
    lemma_stage_dims_next(st0.cm, s, a, b);
    lemma_stage_dims_bound(st0.cm, s, b, st0.cm.len() as int);
    lemma_stage_dims_bound(st0.cm, s, a, st0.cm.len() as int);
}

/// The same holds of the map entries, each named by witness symbols of its
/// stage: the first of a stage starts at 0, the next where it ends.
pub proof fn lemma_entry_stage_pos(st0: StageState, q: int, a: int, b: int)
    requires
        dims_fit(st0.cm, st0.custom),
        0 <= a < b < st0.cm.len(),
        named_in_stage(st0.syms, st0.cm, a, st0.syms.len() as int),
        named_in_stage(st0.syms, st0.cm, b, st0.syms.len() as int),
        st0.cm[a].stage == st0.cm[b].stage,
        forall|k: int| a < k < b ==> (#[trigger] st0.cm[k]).stage != st0.cm[a].stage,
    ensures
        ({
            let st = stage_info_all(st0, st0.syms.len() as int, q);
            &&& (forall|k: int| 0 <= k < a ==> (#[trigger] st0.cm[k]).stage != st0.cm[a].stage) ==> st.cm[a].stage_pos
                == Some(0usize)
            &&& st.cm[b].stage_pos.unwrap() as int == st.cm[a].stage_pos.unwrap() as int + st0.cm[a].dim
        }),
{
    let s = st0.cm[a].stage.unwrap();
    lemma_stage_info_prefix(st0, st0.syms.len() as int, q);
    lemma_stage_dims_next(st0.cm, s, a, b);
    lemma_stage_dims_bound(st0.cm, s, b, st0.cm.len() as int);
    lemma_stage_dims_bound(st0.cm, s, a, st0.cm.len() as int);
    if forall|k: int| 0 <= k < a ==> (#[trigger] st0.cm[k]).stage != st0.cm[a].stage {
        lemma_stage_dims_first(st0.cm, s, a);
    }
}

} // verus!
