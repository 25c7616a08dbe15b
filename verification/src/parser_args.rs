//! Encoding of code blocks into the flat operation/argument arrays of the
//! binary expressions file, with temporary-slot compaction.
use vstd::prelude::*;
use crate::error::SetupError;
use crate::stark_info::{CodeOp, CodeOperation, CodeType, OpType, PolMap, StarkInfo};
use crate::text::{decimal, signed_decimal, u64_to_decimal, i64_to_decimal, concat, owned};
use vstd::string::*;

verus! {

/// Dimension of the cubic extension field.
pub const FIELD_EXTENSION: u64 = 3;

/// Numeric code of an operation in the binary encoding.
pub open spec fn op_code(op: CodeOp) -> u64 {
    match op {
        CodeOp::Add | CodeOp::Copy => 0,
        CodeOp::Sub => 1,
        CodeOp::Mul => 2,
        CodeOp::SubSwap => 3,
    }
}

/// Maps an operation to its numeric code (`copy` shares the code of `add`).
pub fn operation_type_code(op: CodeOp) -> (c: u64)
    ensures
        c == op_code(op),
{
    match op {
        CodeOp::Add | CodeOp::Copy => 0,
        CodeOp::Sub => 1,
        CodeOp::Mul => 2,
        CodeOp::SubSwap => 3,
    }
}

/// Key of an operand in the operand-ordering table: a kind and, for the
/// kinds that distinguish it, a dimension.
#[derive(Debug, Clone, Copy, PartialEq, Eq, Structural)]
pub enum TypeKey {
    Commit(u64),
    Custom(u64),
    Tmp(u64),
    Airvalue(u64),
    Proofvalue(u64),
    Plain(OpType),
}

/// Position of an operand key in the operand-ordering table (`None` for a
/// key the table does not hold).
pub open spec fn key_value(k: TypeKey) -> Option<u64> {
    match k {
        TypeKey::Commit(d) => if d == 1 { Some(0) } else if d == 3 { Some(6) } else { None },
        TypeKey::Custom(d) => if d == 1 { Some(0) } else if d == 3 { Some(6) } else { None },
        TypeKey::Tmp(d) => if d == 1 { Some(1) } else if d == 3 { Some(7) } else { None },
        TypeKey::Airvalue(d) => if d == 1 { Some(4) } else if d == 3 { Some(8) } else { None },
        TypeKey::Proofvalue(d) => if d == 1 { Some(5) } else if d == 3 { Some(10) } else { None },
        TypeKey::Plain(t) => match t {
            OpType::Zi | OpType::Const => Some(0),
            OpType::Public => Some(2),
            OpType::Number => Some(3),
            OpType::XDivXSubXi => Some(6),
            OpType::Airgroupvalue => Some(9),
            OpType::Proofvalue => Some(10),
            OpType::Challenge => Some(11),
            OpType::Eval => Some(12),
            _ => None,
        },
    }
}

/// Position of an operand key in the operand-ordering table.
pub fn operations_map_value(key: TypeKey) -> (v: u64)
    requires
        key_value(key) is Some,
    ensures
        key_value(key) == Some(v),
{
    match key {
        TypeKey::Commit(d) | TypeKey::Custom(d) => if d == 1 { 0 } else { 6 },
        TypeKey::Tmp(d) => if d == 1 { 1 } else { 7 },
        TypeKey::Airvalue(d) => if d == 1 { 4 } else { 8 },
        TypeKey::Proofvalue(d) => if d == 1 { 5 } else { 10 },
        TypeKey::Plain(t) => match t {
            OpType::Public => 2,
            OpType::Number => 3,
            OpType::XDivXSubXi => 6,
            OpType::Airgroupvalue => 9,
            OpType::Proofvalue => 10,
            OpType::Challenge => 11,
            OpType::Eval => 12,
            _ => 0,
        },
    }
}

/// The ordering key of an operand (`verify` selects the verifier layout,
/// where zerofiers live in the extension field).
pub open spec fn type_key(r: CodeType, verify: bool) -> TypeKey {
    match r.op_type {
        OpType::Cm => TypeKey::Commit(r.dim),
        OpType::Const => TypeKey::Commit(1),
        OpType::Zi => if verify { TypeKey::Commit(3) } else { TypeKey::Commit(1) },
        OpType::Custom => TypeKey::Custom(r.dim),
        OpType::XDivXSubXi => TypeKey::Commit(3),
        OpType::Tmp => TypeKey::Tmp(r.dim),
        OpType::Airvalue => TypeKey::Airvalue(r.dim),
        OpType::Proofvalue => TypeKey::Proofvalue(r.dim),
        _ => TypeKey::Plain(r.op_type),
    }
}

/// The ordering key of an operand.
pub fn get_type_key(r: &CodeType, verify: bool) -> (k: TypeKey)
    ensures
        k == type_key(*r, verify),
{
    match r.op_type {
        OpType::Cm => TypeKey::Commit(r.dim),
        OpType::Const => TypeKey::Commit(1),
        OpType::Zi => if verify { TypeKey::Commit(3) } else { TypeKey::Commit(1) },
        OpType::Custom => TypeKey::Custom(r.dim),
        OpType::XDivXSubXi => TypeKey::Commit(3),
        OpType::Tmp => TypeKey::Tmp(r.dim),
        OpType::Airvalue => TypeKey::Airvalue(r.dim),
        OpType::Proofvalue => TypeKey::Proofvalue(r.dim),
        _ => TypeKey::Plain(r.op_type),
    }
}

/// The dimension label used in the operation table.
pub fn dim_str(dim: u64) -> (s: String)
    ensures
        s@ == "dim"@ + decimal(dim as nat),
{
    let d = u64_to_decimal(dim);
    concat("dim", d.as_str())
}

/// `true` when two lifetime segments overlap.
pub open spec fn intersecting(seg1: [i64; 3], seg2: [i64; 3]) -> bool {
    seg2[0] < seg1[1] && seg1[0] < seg2[1]
}

/// Determines whether two lifetime segments overlap (right ends open).
pub fn is_intersecting(seg1: &[i64; 3], seg2: &[i64; 3]) -> (b: bool)
    ensures
        b == intersecting(*seg1, *seg2),
{
    seg2[0] < seg1[1] && seg1[0] < seg2[1]
}

/// Number of elements of `t` whose end is at most `e`.
pub open spec fn count_ends_le(t: Seq<[i64; 3]>, e: i64) -> nat
    decreases t.len(),
{
    if t.len() == 0 {
        0
    } else {
        count_ends_le(t.drop_last(), e) + if t.last()[1] <= e { 1nat } else { 0nat }
    }
}

/// `s` stably sorted by segment end.
pub open spec fn sort_by_end(s: Seq<[i64; 3]>) -> Seq<[i64; 3]>
    decreases s.len(),
{
    if s.len() == 0 {
        s
    } else {
        let t = sort_by_end(s.drop_last());
        t.insert(count_ends_le(t, s.last()[1]) as int, s.last())
    }
}

/// Absolute value.
pub open spec fn abs(x: int) -> int {
    if x < 0 { -x } else { x }
}

/// Scan of the first `k` subsets for the one whose last segment does not
/// overlap `seg` and ends closest to the start of `seg` (first one on ties).
pub open spec fn closest_upto(subs: Seq<Seq<[i64; 3]>>, seg: [i64; 3], k: int) -> (Option<int>, int)
    decreases k,
{
    if k <= 0 {
        (None, i64::MAX as int)
    } else {
        let (idx, m) = closest_upto(subs, seg, k - 1);
        let last = subs[k - 1].last();
        if intersecting(seg, last) {
            (idx, m)
        } else {
            let d = abs(last[1] - seg[0]);
            if d < m { (Some(k - 1), d) } else { (idx, m) }
        }
    }
}

proof fn lemma_closest_in_range(subs: Seq<Seq<[i64; 3]>>, seg: [i64; 3], k: int)
    ensures
        match closest_upto(subs, seg, k).0 {
            Some(i) => 0 <= i < k,
            None => true,
        },
    decreases k,
{
    if k > 0 {
        lemma_closest_in_range(subs, seg, k - 1);
    }
}

/// Adds `seg` to the closest compatible subset, or opens a new subset.
pub open spec fn place(subs: Seq<Seq<[i64; 3]>>, seg: [i64; 3]) -> Seq<Seq<[i64; 3]>> {
    match closest_upto(subs, seg, subs.len() as int).0 {
        Some(i) => subs.update(i, subs[i].push(seg)),
        None => subs.push(seq![seg]),
    }
}

/// Greedy packing of the segments, taken in order, into subsets.
pub open spec fn greedy(s: Seq<[i64; 3]>) -> Seq<Seq<[i64; 3]>>
    decreases s.len(),
{
    if s.len() == 0 {
        Seq::empty()
    } else {
        place(greedy(s.drop_last()), s.last())
    }
}

/// The packing of `s`: sort by end, then greedy closest fit.
pub open spec fn temporals(s: Seq<[i64; 3]>) -> Seq<Seq<[i64; 3]>> {
    greedy(sort_by_end(s))
}

/// Model of a list of subsets.
pub open spec fn subsets_view(v: Seq<Vec<[i64; 3]>>) -> Seq<Seq<[i64; 3]>> {
    v.map_values(|x: Vec<[i64; 3]>| x@)
}

proof fn lemma_count_le(t: Seq<[i64; 3]>, e: i64)
    ensures
        count_ends_le(t, e) <= t.len(),
    decreases t.len(),
{
    if t.len() > 0 {
        lemma_count_le(t.drop_last(), e);
    }
}

/// Stable insertion sort of the segments by their end.
fn sort_segments_by_end(segments: &Vec<[i64; 3]>) -> (r: Vec<[i64; 3]>)
    ensures
        r@ == sort_by_end(segments@),
{
    let mut out: Vec<[i64; 3]> = Vec::new();
    let n = segments.len();
    let mut i: usize = 0;
    while i < n
        invariant
            n == segments@.len(),
            i <= n,
            out@ == sort_by_end(segments@.subrange(0, i as int)),
        decreases n - i,
    {
        let x = segments[i];
        let ghost t = out@;
        // position after every element whose end is at most x's end
        let mut p: usize = 0;
        let mut cnt: usize = 0;
        let m = out.len();
        while cnt < m
            invariant
                m == out@.len(),
                out@ == t,
                cnt <= m,
                p == count_ends_le(t.subrange(0, cnt as int), x[1]),
            decreases m - cnt,
        {
            proof {
                assert(t.subrange(0, cnt as int + 1).drop_last() =~= t.subrange(0, cnt as int));
                lemma_count_le(t.subrange(0, cnt as int), x[1]);
            }
            if out[cnt][1] <= x[1] {
                p = p + 1;
            }
            cnt = cnt + 1;
        }
        proof {
            assert(t.subrange(0, m as int) =~= t);
            lemma_count_le(t, x[1]);
            assert(segments@.subrange(0, i as int + 1).drop_last() =~= segments@.subrange(0, i as int));
            assert(segments@.subrange(0, i as int + 1).last() == x);
        }
        out.insert(p, x);
        i = i + 1;
    }
    assert(segments@.subrange(0, n as int) =~= segments@);
    out
}

/// Scan for the closest compatible subset.
fn closest_subset(subsets: &Vec<Vec<[i64; 3]>>, segment: &[i64; 3]) -> (r: Option<usize>)
    requires
        forall|i: int| 0 <= i < subsets@.len() ==> (#[trigger] subsets@[i])@.len() > 0,
    ensures
        match r {
            Some(i) => closest_upto(subsets_view(subsets@), *segment, subsets@.len() as int).0
                == Some(i as int),
            None => closest_upto(subsets_view(subsets@), *segment, subsets@.len() as int).0 is None,
        },
{
    let ghost sv = subsets_view(subsets@);
    let mut closest_idx: Option<usize> = None;
    let mut min_distance: i128 = i64::MAX as i128;
    let mut i: usize = 0;
    while i < subsets.len()
        invariant
            i <= subsets@.len(),
            sv == subsets_view(subsets@),
            forall|k: int| 0 <= k < subsets@.len() ==> (#[trigger] subsets@[k])@.len() > 0,
            closest_upto(sv, *segment, i as int).1 == min_distance as int,
            match closest_idx {
                Some(c) => closest_upto(sv, *segment, i as int).0 == Some(c as int),
                None => closest_upto(sv, *segment, i as int).0 is None,
            },
        decreases subsets@.len() - i,
    {
        let len_i = subsets[i].len();
        let last = subsets[i][len_i - 1];
        proof {
            assert(sv[i as int] == subsets@[i as int]@);
            assert(sv[i as int].last() == last);
        }
        if !is_intersecting(segment, &last) {
            let diff = last[1] as i128 - segment[0] as i128;
            let distance = if diff < 0 { -diff } else { diff };
            if distance < min_distance {
                min_distance = distance;
                closest_idx = Some(i);
            }
        }
        i = i + 1;
    }
    closest_idx
}

/// Packs lifetime segments into subsets of pairwise-chained, non-overlapping
/// segments: the segments are sorted (stably) by end, then each is added to
/// the compatible subset whose last segment ends closest to its start.
pub fn temporals_subsets(segments: &mut Vec<[i64; 3]>) -> (r: Vec<Vec<[i64; 3]>>)
    ensures
        final(segments)@ == sort_by_end(old(segments)@),
        subsets_view(r@) == temporals(old(segments)@),
{
    let sorted = sort_segments_by_end(segments);
    proof {
        lemma_sort_len(segments@);
    }
    *segments = sorted;
    let ghost s = segments@;
    let mut subsets: Vec<Vec<[i64; 3]>> = Vec::new();
    let n = segments.len();
    let mut j: usize = 0;
    while j < n
        invariant
            n == segments@.len(),
            s == segments@,
            j <= n,
            subsets_view(subsets@) == greedy(s.subrange(0, j as int)),
            forall|i: int| 0 <= i < subsets@.len() ==> (#[trigger] subsets@[i])@.len() > 0,
        decreases n - j,
    {
        let segment = segments[j];
        proof {
            assert(s.subrange(0, j as int + 1).drop_last() =~= s.subrange(0, j as int));
            assert(s.subrange(0, j as int + 1).last() == segment);
        }
        let ghost before = subsets_view(subsets@);
        let c = closest_subset(&subsets, &segment);
        proof {
            lemma_closest_in_range(before, segment, subsets@.len() as int);
        }
        match c {
            Some(idx) => {
                let ghost old_subsets = subsets@;
                let mut inner = Vec::new();
                std::mem::swap(&mut inner, &mut subsets[idx]);
                inner.push(segment);
                subsets.set(idx, inner);
                proof {
                    assert(subsets_view(subsets@) =~= before.update(idx as int, before[idx as int].push(segment)));
                    assert forall|i: int| 0 <= i < subsets@.len() implies (#[trigger] subsets@[i])@.len() > 0 by {
                        if i != idx as int {
                            assert(subsets@[i] == old_subsets[i]);
                        }
                    }
                }
            },
            None => {
                let mut v: Vec<[i64; 3]> = Vec::new();
                v.push(segment);
                subsets.push(v);
                proof {
                    assert(subsets_view(subsets@) =~= before.push(seq![segment]));
                }
            },
        }
        j = j + 1;
    }
    assert(s.subrange(0, n as int) =~= s);
    subsets
}


/// `true` when operand `r` is the temporary `id` with dimension `d`.
pub open spec fn is_tmp(r: CodeType, id: u64, d: u64) -> bool {
    r.op_type == OpType::Tmp && r.id == id && r.dim == d
}

/// `true` when the destination or one of the first `k` sources of `c` is the
/// temporary `id` with dimension `d`.
pub open spec fn occurs_upto(c: CodeOperation, id: u64, d: u64, k: int) -> bool {
    is_tmp(c.dest, id, d) || exists|i: int| 0 <= i < k && i < c.src@.len() && #[trigger] is_tmp(c.src@[i], id, d)
}

/// `true` when operation `c` mentions the temporary `id` with dimension `d`.
pub open spec fn occurs(c: CodeOperation, id: u64, d: u64) -> bool {
    occurs_upto(c, id, d, c.src@.len() as int)
}

/// Index of the first of the first `n` operations that mentions the
/// temporary (`-1` when none does).
pub open spec fn first_use(code: Seq<CodeOperation>, id: u64, d: u64, n: int) -> int
    decreases n,
{
    if n <= 0 {
        -1
    } else {
        let f = first_use(code, id, d, n - 1);
        if f != -1 { f } else if occurs(code[n - 1], id, d) { n - 1 } else { -1 }
    }
}

/// Index of the last of the first `n` operations that mentions the
/// temporary (`-1` when none does).
pub open spec fn last_use(code: Seq<CodeOperation>, id: u64, d: u64, n: int) -> int
    decreases n,
{
    if n <= 0 {
        -1
    } else if occurs(code[n - 1], id, d) {
        n - 1
    } else {
        last_use(code, id, d, n - 1)
    }
}

/// Lifetime segments `[first, last, id]` of the temporaries `0..m` of
/// dimension `d`, in id order.
pub open spec fn lifetimes(code: Seq<CodeOperation>, d: u64, m: int) -> Seq<[i64; 3]>
    decreases m,
{
    if m <= 0 {
        Seq::empty()
    } else {
        let id = (m - 1) as u64;
        let f = first_use(code, id, d, code.len() as int);
        let rest = lifetimes(code, d, m - 1);
        if f >= 0 {
            rest.push([f as i64, last_use(code, id, d, code.len() as int) as i64, (m - 1) as i64])
        } else {
            rest
        }
    }
}

/// `arr` after writing `k` at the id of every segment of `sub`.
pub open spec fn assign_subset(arr: Seq<i64>, sub: Seq<[i64; 3]>, k: int) -> Seq<i64>
    decreases sub.len(),
{
    if sub.len() == 0 {
        arr
    } else {
        let a = assign_subset(arr, sub.drop_last(), k);
        let x = sub.last()[2];
        if 0 <= x < a.len() { a.update(x as int, k as i64) } else { a }
    }
}

/// `arr` after writing, for each subset in turn, its index at the ids of its
/// segments.
pub open spec fn assign_slots(arr: Seq<i64>, subs: Seq<Seq<[i64; 3]>>) -> Seq<i64>
    decreases subs.len(),
{
    if subs.len() == 0 {
        arr
    } else {
        assign_subset(assign_slots(arr, subs.drop_last()), subs.last(), subs.len() - 1)
    }
}

/// Every temporary of `code` has an id below `maxid` and dimension 1 or 3.
pub open spec fn tmps_in_range(code: Seq<CodeOperation>, maxid: nat) -> bool {
    forall|j: int|
        0 <= j < code.len() ==> {
            &&& (code[j].dest.op_type == OpType::Tmp ==> code[j].dest.id < maxid && (code[j].dest.dim
                == 1 || code[j].dest.dim == 3))
            &&& forall|k: int|
                0 <= k < code[j].src@.len() && (#[trigger] code[j].src@[k]).op_type == OpType::Tmp
                    ==> code[j].src@[k].id < maxid && (code[j].src@[k].dim == 1
                    || code[j].src@[k].dim == 3)
        }
}

/// Records a use of a temporary at operation `j`.
fn note_use(ini: &mut Vec<i64>, end: &mut Vec<i64>, id: usize, j: i64)
    requires
        id < old(ini)@.len(),
        id < old(end)@.len(),
        j >= 0,
    ensures
        final(ini)@ == old(ini)@.update(id as int, if old(ini)@[id as int] == -1 { j } else { old(ini)@[id as int] }),
        final(end)@ == old(end)@.update(id as int, j),
{
    if ini[id] == -1 {
        ini.set(id, j);
    }
    end.set(id, j);
}

/// Invariant relating the use arrays to the first `n` operations.
pub open spec fn uses_match(code: Seq<CodeOperation>, d: u64, n: int, ini: Seq<i64>, end: Seq<i64>, maxid: nat) -> bool {
    &&& ini.len() == maxid
    &&& end.len() == maxid
    &&& forall|id: int| 0 <= id < maxid ==> #[trigger] ini[id] == first_use(code, id as u64, d, n)
    &&& forall|id: int| 0 <= id < maxid ==> #[trigger] end[id] == last_use(code, id as u64, d, n)
}

proof fn lemma_uses_bounds(code: Seq<CodeOperation>, id: u64, d: u64, n: int)
    requires
        n >= 0,
    ensures
        -1 <= first_use(code, id, d, n) < n,
        -1 <= last_use(code, id, d, n) < n,
        first_use(code, id, d, n) >= 0 ==> last_use(code, id, d, n) >= first_use(code, id, d, n),
        first_use(code, id, d, n) == -1 ==> last_use(code, id, d, n) == -1,
    decreases n,
{
    if n > 0 {
        lemma_uses_bounds(code, id, d, n - 1);
    }
}

/// Lifetime analysis of the temporaries of `code`: the first and last
/// operation using each temporary, per dimension.
fn compute_uses(maxid: usize, code: &[CodeOperation], d: u64) -> (r: (Vec<i64>, Vec<i64>))
    requires
        code@.len() < i64::MAX,
        tmps_in_range(code@, maxid as nat),
    ensures
        uses_match(code@, d, code@.len() as int, r.0@, r.1@, maxid as nat),
{
    let mut ini: Vec<i64> = vec![-1i64; maxid];
    let mut end: Vec<i64> = vec![-1i64; maxid];
    let n = code.len();
    let mut j: usize = 0;
    while j < n
        invariant
            n == code@.len(),
            n < i64::MAX,
            j <= n,
            tmps_in_range(code@, maxid as nat),
            uses_match(code@, d, j as int, ini@, end@, maxid as nat),
        decreases n - j,
    {
        let c = &code[j];
        let ghost ini0 = ini@;
        let ghost end0 = end@;
        if c.dest.op_type == OpType::Tmp && c.dest.dim == d {
            note_use(&mut ini, &mut end, c.dest.id as usize, j as i64);
        }
        let m = c.src.len();
        let mut k: usize = 0;
        while k < m
            invariant
                n == code@.len(),
                n < i64::MAX,
                j < n,
                m == c.src@.len(),
                *c == code@[j as int],
                k <= m,
                tmps_in_range(code@, maxid as nat),
                ini@.len() == maxid,
                end@.len() == maxid,
                forall|id: int| 0 <= id < maxid ==> #[trigger] ini@[id] == (if ini0[id] != -1 { ini0[id] }
                    else if occurs_upto(*c, id as u64, d, k as int) { j as i64 } else { -1i64 }),
                forall|id: int| 0 <= id < maxid ==> #[trigger] end@[id] == (if occurs_upto(*c, id as u64, d, k as int) {
                    j as i64 } else { end0[id] }),
                forall|id: int| 0 <= id < maxid ==> #[trigger] ini0[id] == first_use(code@, id as u64, d, j as int),
                forall|id: int| 0 <= id < maxid ==> #[trigger] end0[id] == last_use(code@, id as u64, d, j as int),
            decreases m - k,
        {
            let s = &c.src[k];
            if s.op_type == OpType::Tmp && s.dim == d {
                note_use(&mut ini, &mut end, s.id as usize, j as i64);
            }
            proof {
                assert forall|id: int| 0 <= id < maxid implies #[trigger] occurs_upto(*c, id as u64, d, k as int + 1)
                    == (occurs_upto(*c, id as u64, d, k as int) || is_tmp(c.src@[k as int], id as u64, d)) by {
                    if is_tmp(c.src@[k as int], id as u64, d) {
                        assert(occurs_upto(*c, id as u64, d, k as int + 1));
                    }
                    if occurs_upto(*c, id as u64, d, k as int + 1) && !is_tmp(c.dest, id as u64, d) {
                        let i = choose|i: int| 0 <= i < k + 1 && i < c.src@.len() && #[trigger] is_tmp(c.src@[i], id as u64, d);
                        if i < k {
                            assert(occurs_upto(*c, id as u64, d, k as int));
                        }
                    }
                }
            }
            k = k + 1;
        }
        proof {
            assert forall|id: int| 0 <= id < maxid implies #[trigger] ini@[id] == first_use(code@, id as u64, d, j as int + 1) by {
                lemma_uses_bounds(code@, id as u64, d, j as int);
            }
        }
        j = j + 1;
    }
    (ini, end)
}

/// Collects the lifetime segments of the temporaries `0..maxid`.
fn collect_segments(ini: &Vec<i64>, end: &Vec<i64>, maxid: usize, Ghost(code): Ghost<Seq<CodeOperation>>, d: u64) -> (s: Vec<[i64; 3]>)
    requires
        maxid < i64::MAX,
        code.len() < i64::MAX,
        uses_match(code, d, code.len() as int, ini@, end@, maxid as nat),
    ensures
        s@ == lifetimes(code, d, maxid as int),
{
    let mut segs: Vec<[i64; 3]> = Vec::new();
    let mut id: usize = 0;
    while id < maxid
        invariant
            maxid < i64::MAX,
            code.len() < i64::MAX,
            id <= maxid,
            uses_match(code, d, code.len() as int, ini@, end@, maxid as nat),
            segs@ == lifetimes(code, d, id as int),
        decreases maxid - id,
    {
        proof {
            lemma_uses_bounds(code, id as u64, d, code.len() as int);
        }
        if ini[id] >= 0 {
            segs.push([ini[id], end[id], id as i64]);
        }
        id = id + 1;
    }
    segs
}

/// Writes, for each subset in turn, its index at the ids of its segments.
fn assign_ids(ids: &mut Vec<i64>, subsets: &Vec<Vec<[i64; 3]>>) -> (count: u64)
    requires
        subsets@.len() < i64::MAX,
    ensures
        final(ids)@ == assign_slots(old(ids)@, subsets_view(subsets@)),
        count == subsets@.len(),
{
    let mut count: u64 = 0;
    let n = subsets.len();
    let mut k: usize = 0;
    while k < n
        invariant
            n == subsets@.len(),
            n < i64::MAX,
            k <= n,
            count == k,
            ids@ == assign_slots(old(ids)@, subsets_view(subsets@).subrange(0, k as int)),
        decreases n - k,
    {
        let sub = &subsets[k];
        let ghost base = ids@;
        let m = sub.len();
        let mut t: usize = 0;
        while t < m
            invariant
                m == sub@.len(),
                t <= m,
                k < n,
                n < i64::MAX,
                count == k,
                ids@ == assign_subset(base, sub@.subrange(0, t as int), k as int),
            decreases m - t,
        {
            let x = sub[t][2];
            proof {
                assert(sub@.subrange(0, t as int + 1).drop_last() =~= sub@.subrange(0, t as int));
            }
            if x >= 0 && (x as u64) < (ids.len() as u64) {
                ids.set(x as usize, count as i64);
            }
            t = t + 1;
        }
        proof {
            assert(sub@.subrange(0, m as int) =~= sub@);
            let sv = subsets_view(subsets@);
            assert(sv.subrange(0, k as int + 1).drop_last() =~= sv.subrange(0, k as int));
            assert(sv.subrange(0, k as int + 1).last() == sub@);
        }
        count = count + 1;
        k = k + 1;
    }
    proof {
        assert(subsets_view(subsets@).subrange(0, n as int) =~= subsets_view(subsets@));
    }
    count
}

/// Analyses temporary lifetimes and assigns compacted slots: for each
/// dimension, the lifetime segments are packed by `temporals_subsets` and
/// every temporary gets the index of its subset. Returns the number of
/// slots of dimension 1 and 3.
pub fn get_id_maps(maxid: usize, id1d: &mut Vec<i64>, id3d: &mut Vec<i64>, code: &[CodeOperation]) -> (r: (u64, u64))
    requires
        maxid < i64::MAX,
        code@.len() < i64::MAX,
        tmps_in_range(code@, maxid as nat),
    ensures
        r.0 == temporals(lifetimes(code@, 1, maxid as int)).len(),
        r.1 == temporals(lifetimes(code@, 3, maxid as int)).len(),
        final(id1d)@ == assign_slots(old(id1d)@, temporals(lifetimes(code@, 1, maxid as int))),
        final(id3d)@ == assign_slots(old(id3d)@, temporals(lifetimes(code@, 3, maxid as int))),
{
    let (ini1d, end1d) = compute_uses(maxid, code, 1);
    let (ini3d, end3d) = compute_uses(maxid, code, 3);
    let mut segments1d = collect_segments(&ini1d, &end1d, maxid, Ghost(code@), 1);
    let mut segments3d = collect_segments(&ini3d, &end3d, maxid, Ghost(code@), 3);
    let ghost s1 = segments1d@;
    let ghost s3 = segments3d@;
    let subsets1d = temporals_subsets(&mut segments1d);
    let subsets3d = temporals_subsets(&mut segments3d);
    proof {
        lemma_temporals_len(s1);
        lemma_temporals_len(s3);
        lemma_lifetimes_len(code@, 1, maxid as int);
        lemma_lifetimes_len(code@, 3, maxid as int);
        assert(subsets_view(subsets1d@).len() == subsets1d@.len());
        assert(subsets_view(subsets3d@).len() == subsets3d@.len());
    }
    let count1d = assign_ids(id1d, &subsets1d);
    let count3d = assign_ids(id3d, &subsets3d);
    (count1d, count3d)
}

proof fn lemma_greedy_len(s: Seq<[i64; 3]>)
    ensures
        greedy(s).len() <= s.len(),
    decreases s.len(),
{
    if s.len() > 0 {
        lemma_greedy_len(s.drop_last());
        let g = greedy(s.drop_last());
        lemma_closest_in_range(g, s.last(), g.len() as int);
        match closest_upto(g, s.last(), g.len() as int).0 {
            Some(i) => {},
            None => {},
        }
    }
}

proof fn lemma_sort_len(s: Seq<[i64; 3]>)
    ensures
        sort_by_end(s).len() == s.len(),
    decreases s.len(),
{
    if s.len() > 0 {
        lemma_sort_len(s.drop_last());
        lemma_count_le(sort_by_end(s.drop_last()), s.last()[1]);
    }
}

proof fn lemma_lifetimes_len(code: Seq<CodeOperation>, d: u64, m: int)
    ensures
        lifetimes(code, d, m).len() <= if m < 0 { 0 } else { m },
    decreases m,
{
    if m > 0 {
        lemma_lifetimes_len(code, d, m - 1);
    }
}

/// The packing has at most as many subsets as segments.
proof fn lemma_temporals_len(s: Seq<[i64; 3]>)
    ensures
        temporals(s).len() <= s.len(),
{
    lemma_sort_len(s);
    lemma_greedy_len(sort_by_end(s));
}

/// The operand with the lower ordering key goes second: the sources are
/// swapped when the second has the larger dimension, or equal dimensions and
/// a smaller table position.
pub open spec fn swap_value(a: CodeType, b: CodeType, verify: bool) -> int {
    if a.dim != b.dim {
        b.dim as int - a.dim as int
    } else {
        key_value(type_key(a, verify)).unwrap() as int - key_value(type_key(b, verify)).unwrap() as int
    }
}

/// What `get_operation` returns: the (possibly swapped) operation, the
/// destination dimension, the ordered sources and the dimensions of the
/// first two sources.
pub open spec fn operation(r: CodeOperation, verify: bool) -> (CodeOp, u64, Seq<CodeType>, u64, u64) {
    let src = r.src@;
    if src.len() < 2 {
        let d0 = if src.len() > 0 { src[0].dim } else { 1 };
        (r.op, 0, src, d0, d0)
    } else if swap_value(src[0], src[1], verify) > 0 {
        let op = if r.op == CodeOp::Sub { CodeOp::SubSwap } else { r.op };
        (op, r.dest.dim, src.update(0, src[1]).update(1, src[0]), src[1].dim, src[0].dim)
    } else {
        (r.op, r.dest.dim, src, src[0].dim, src[1].dim)
    }
}

/// The sources can be ordered: dimensions are small and, when there are
/// two or more sources, the first two have keys in the ordering table.
pub open spec fn operation_ok(r: CodeOperation, verify: bool) -> bool {
    &&& forall|k: int| 0 <= k < r.src@.len() ==> (#[trigger] r.src@[k]).dim < 0x1_0000_0000
    &&& r.src@.len() >= 2 ==> key_value(type_key(r.src@[0], verify)) is Some && key_value(
        type_key(r.src@[1], verify),
    ) is Some
}

/// A copy of a list of operands.
fn copy_code_types(v: &Vec<CodeType>) -> (r: Vec<CodeType>)
    ensures
        r@ == v@,
{
    let mut r: Vec<CodeType> = Vec::new();
    let mut i: usize = 0;
    while i < v.len()
        invariant
            i <= v@.len(),
            r@ == v@.subrange(0, i as int),
        decreases v@.len() - i,
    {
        r.push(v[i]);
        i = i + 1;
    }
    assert(r@ =~= v@);
    r
}

/// Orders the two sources of an operation (swapping them, and turning `sub`
/// into `sub_swap`, when the second has the larger dimension or ordering key).
pub fn get_operation(r: &CodeOperation, verify: bool) -> (res: (CodeOp, u64, Vec<CodeType>, u64, u64))
    requires
        operation_ok(*r, verify),
    ensures
        (res.0, res.1, res.2@, res.3, res.4) == operation(*r, verify),
{
    let op = r.op;
    let mut srcs = copy_code_types(&r.src);
    if srcs.len() < 2 {
        let d0 = if srcs.len() > 0 { srcs[0].dim } else { 1 };
        return (op, 0, srcs, d0, d0);
    }
    let op_a = operations_map_value(get_type_key(&srcs[0], verify));
    let op_b = operations_map_value(get_type_key(&srcs[1], verify));
    let swap_val: i64 = if srcs[0].dim != srcs[1].dim {
        (srcs[1].dim as i64) - (srcs[0].dim as i64)
    } else {
        (op_a as i64) - (op_b as i64)
    };
    let mut final_op = op;
    if swap_val > 0 {
        let a = srcs[0];
        let b = srcs[1];
        srcs.set(0, b);
        srcs.set(1, a);
        if matches!(final_op, CodeOp::Sub) {
            final_op = CodeOp::SubSwap;
        }
    }
    let d0 = srcs[0].dim;
    let d1 = srcs[1].dim;
    (final_op, r.dest.dim, srcs, d0, d1)
}

/// Position of the dimension combination in the operation table
/// (`dim1 = dim1 op dim1`, `dim3 = dim3 op dim1`, `dim3 = dim3 op dim3`).
pub open spec fn operations_index(dest: u64, s0: u64, s1: u64) -> Option<u64> {
    if dest == 1 && s0 == 1 && s1 == 1 {
        Some(0)
    } else if dest == 3 && s0 == 3 && s1 == 1 {
        Some(1)
    } else if dest == 3 && s0 == 3 && s1 == 3 {
        Some(2)
    } else {
        None
    }
}

/// Information about the global proof structure used by the argument
/// encoding of global constraints.
#[derive(Debug, Clone)]
pub struct GlobalInfo {
    pub proof_values_map: Vec<ProofValueEntry>,
    pub agg_types: Vec<Vec<u64>>,
}

/// Entry in the proof values map.
#[derive(Debug, Clone, Copy)]
pub struct ProofValueEntry {
    pub stage: u64,
}

/// Columns taken by the first `n` values of a map: 1 for a stage-1 value,
/// 3 otherwise.
pub open spec fn value_pos(stages: Seq<u64>, n: int) -> int
    decreases n,
{
    if n <= 0 {
        0
    } else {
        value_pos(stages, n - 1) + if stages[n - 1] == 1 { 1int } else { 3int }
    }
}

/// Stages of a polynomial map.
pub open spec fn pol_stages(m: Seq<PolMap>) -> Seq<u64> {
    m.map_values(|p: PolMap| p.stage)
}

/// Stages of the global proof values map.
pub open spec fn proof_value_stages(m: Seq<ProofValueEntry>) -> Seq<u64> {
    m.map_values(|p: ProofValueEntry| p.stage)
}

/// Offset of the aggregation values of the first `n` airgroups.
pub open spec fn agg_offset(agg: Seq<Vec<u64>>, n: int) -> int
    decreases n,
{
    if n <= 0 {
        0
    } else {
        agg_offset(agg, n - 1) + 3 * agg[n - 1]@.len()
    }
}

/// Index of the first element of `s` equal to `x` (`-1` when absent).
pub open spec fn first_index<A>(s: Seq<A>, x: A) -> int
    decreases s.len(),
{
    if s.len() == 0 {
        -1
    } else {
        let f = first_index(s.drop_last(), x);
        if f >= 0 { f } else if s.last() == x { s.len() - 1 } else { -1 }
    }
}

/// Goldilocks prime.
pub open spec fn goldilocks_p() -> nat {
    0xFFFF_FFFF_0000_0001
}

/// Canonical field value of a number operand: a value whose signed reading
/// is negative is taken modulo the Goldilocks prime.
pub open spec fn canon_number(v: u64) -> nat {
    if v >= 0x8000_0000_0000_0000 { (v - 0x1_0000_0000_0000_0000 + goldilocks_p()) as nat } else { v as nat }
}

/// Model of a list of strings.
pub open spec fn strings_view(v: Seq<String>) -> Seq<Seq<char>> {
    v.map_values(|s: String| s@)
}

/// The numbers table after recording operand `r` (only number operands add
/// their canonical decimal form, when it is not already there).
pub open spec fn numbers_after(numbers: Seq<Seq<char>>, r: CodeType, dest: bool) -> Seq<Seq<char>> {
    if dest && r.op_type != OpType::Tmp {
        numbers
    } else if r.op_type == OpType::Number {
        let s = decimal(canon_number(r.value));
        if numbers.contains(s) { numbers } else { numbers.push(s) }
    } else {
        numbers
    }
}

/// Index in the opening points of the row offset of `r`.
pub open spec fn prime_index(opening_points: Seq<i64>, r: CodeType) -> int {
    first_index(opening_points, r.prime as i64)
}

/// Arguments pushed for operand `r`, or the reason it is refused.
/// `buffer` is the number of buffers before the temporaries
/// (`1 + nStages + 3 + customCommits`).
pub open spec fn operand_args(
    si: StarkInfo,
    r: CodeType,
    dest: bool,
    buffer: int,
    id1d: Seq<i64>,
    id3d: Seq<i64>,
    numbers: Seq<Seq<char>>,
    global: bool,
    gi: Option<GlobalInfo>,
) -> Result<Seq<u64>, SetupError> {
    let ns = si.n_stages as int;
    let tail: Seq<u64> = if !global { seq![0u64] } else { Seq::empty() };
    if dest && r.op_type != OpType::Tmp {
        Err(SetupError::InvalidDestType)
    } else {
        match r.op_type {
            OpType::Tmp => if r.dim == 1 {
                let pre: Seq<u64> = if !dest { seq![if !global { buffer as u64 } else { 0u64 }] } else { Seq::empty() };
                Ok(pre + seq![id1d[r.id as int] as u64] + if !global && !dest { seq![0u64] } else { Seq::empty() })
            } else {
                let pre: Seq<u64> = if !dest { seq![if !global { (buffer + 1) as u64 } else { 4u64 }] } else { Seq::empty() };
                Ok(pre + seq![(3 * id3d[r.id as int]) as u64] + if !global && !dest { seq![0u64] } else { Seq::empty() })
            },
            OpType::Const | OpType::Custom | OpType::Cm => {
                if global {
                    Err(SetupError::NotAllowedInGlobal)
                } else {
                    let p = prime_index(si.opening_points@, r);
                    if p < 0 {
                        Err(SetupError::OpeningPointNotFound)
                    } else if r.op_type == OpType::Const {
                        Ok(seq![0u64, r.id, p as u64])
                    } else if r.op_type == OpType::Custom {
                        Ok(seq![(ns + 4 + r.commit_id) as u64, r.id, p as u64])
                    } else {
                        let pm = si.cm_pols_map@[r.id as int];
                        Ok(seq![pm.stage, pm.stage_pos, p as u64])
                    }
                }
            },
            OpType::Number => {
                let nb = numbers_after(numbers, r, dest);
                let pos = first_index(nb, decimal(canon_number(r.value)));
                Ok(seq![if !global { (buffer + 3) as u64 } else { 2u64 }, pos as u64] + tail)
            },
            OpType::Public => Ok(seq![if !global { (buffer + 2) as u64 } else { 1u64 }, r.id] + tail),
            OpType::Eval => if global {
                Err(SetupError::NotAllowedInGlobal)
            } else {
                Ok(seq![(buffer + 8) as u64, (3 * r.id) as u64, 0u64])
            },
            OpType::Airvalue => if global {
                Err(SetupError::NotAllowedInGlobal)
            } else {
                Ok(seq![(buffer + 4) as u64, value_pos(pol_stages(si.air_values_map@), r.id as int) as u64, 0u64])
            },
            OpType::Proofvalue => {
                let pos = if !global {
                    value_pos(pol_stages(si.proof_values_map@), r.id as int)
                } else {
                    match gi {
                        Some(g) => value_pos(proof_value_stages(g.proof_values_map@), r.id as int),
                        None => 0,
                    }
                };
                Ok(seq![if !global { (buffer + 5) as u64 } else { 3u64 }, pos as u64] + tail)
            },
            OpType::Challenge => Ok(seq![if !global { (buffer + 7) as u64 } else { 6u64 }, (3 * r.id) as u64] + tail),
            OpType::Airgroupvalue => {
                let head = seq![if !global { (buffer + 6) as u64 } else { 5u64 }];
                if !global {
                    Ok(head + seq![value_pos(pol_stages(si.airgroup_values_map@), r.id as int) as u64, 0u64])
                } else {
                    match gi {
                        Some(g) => Ok(head + seq![(agg_offset(g.agg_types@, r.airgroup_id as int) + 3 * r.id) as u64]),
                        None => Ok(head),
                    }
                }
            },
            OpType::XDivXSubXi => if global {
                Err(SetupError::NotAllowedInGlobal)
            } else {
                Ok(seq![(ns + 3) as u64, r.id, 0u64])
            },
            OpType::Zi => if global {
                Err(SetupError::NotAllowedInGlobal)
            } else {
                Ok(seq![(ns + 2) as u64, (1 + r.boundary_id) as u64, 0u64])
            },
            _ => Err(SetupError::UnknownType),
        }
    }
}

/// The argument buffer index base of an encoding: one past the stages, the
/// three fixed buffers and the custom commits (none in a global constraint).
pub open spec fn parser_buffer(si: StarkInfo, global: bool) -> int {
    1 + si.n_stages + 3 + if global { 0 } else { si.custom_commits@.len() as int }
}

/// Operand `r` can be encoded without going out of bounds or overflowing.
pub open spec fn operand_ok(
    si: StarkInfo,
    r: CodeType,
    dest: bool,
    buffer: int,
    global: bool,
    gi: Option<GlobalInfo>,
    id1d: Seq<i64>,
    id3d: Seq<i64>,
) -> bool {
    &&& operand_static_ok(si, r, dest, buffer, global, gi)
    &&& (r.op_type == OpType::Tmp ==> (r.dim == 1 || r.dim == 3) && r.id < id1d.len() && r.id < id3d.len()
        && (r.dim == 3 ==> 0 <= id3d[r.id as int] && 3 * id3d[r.id as int] <= u64::MAX))
}

/// The non-temporary part of `operand_ok`: the maps read hold the entries
/// read, and no sum or product the encoding computes overflows.
pub open spec fn operand_static_ok(si: StarkInfo, r: CodeType, dest: bool, buffer: int, global: bool, gi: Option<GlobalInfo>) -> bool {
    let ns = si.n_stages as int;
    !(dest && r.op_type != OpType::Tmp) ==> {
        &&& buffer <= u64::MAX
        &&& (r.op_type == OpType::Tmp && r.dim != 1 && !dest && !global ==> buffer + 1 <= u64::MAX)
        &&& (r.op_type == OpType::Cm && !global ==> r.id < si.cm_pols_map@.len())
        &&& (r.op_type == OpType::Custom && !global ==> ns + 4 + r.commit_id <= u64::MAX)
        &&& (r.op_type == OpType::Number && !global ==> buffer + 3 <= u64::MAX)
        &&& (r.op_type == OpType::Public && !global ==> buffer + 2 <= u64::MAX)
        &&& (r.op_type == OpType::Eval && !global ==> buffer + 8 <= u64::MAX && 3 * r.id <= u64::MAX)
        &&& (r.op_type == OpType::Airvalue && !global ==> buffer + 4 <= u64::MAX && r.id <= si.air_values_map@.len()
            && value_pos(pol_stages(si.air_values_map@), r.id as int) <= u64::MAX)
        &&& (r.op_type == OpType::Proofvalue && !global ==> buffer + 5 <= u64::MAX && r.id <= si.proof_values_map@.len()
            && value_pos(pol_stages(si.proof_values_map@), r.id as int) <= u64::MAX)
        &&& (r.op_type == OpType::Proofvalue && global ==> match gi {
            Some(g) => r.id <= g.proof_values_map@.len() && value_pos(proof_value_stages(g.proof_values_map@), r.id as int)
                <= u64::MAX,
            None => true,
        })
        &&& (r.op_type == OpType::Challenge ==> (!global ==> buffer + 7 <= u64::MAX) && 3 * r.id <= u64::MAX)
        &&& (r.op_type == OpType::Airgroupvalue && !global ==> buffer + 6 <= u64::MAX && r.id <= si.airgroup_values_map@.len()
            && value_pos(pol_stages(si.airgroup_values_map@), r.id as int) <= u64::MAX)
        &&& (r.op_type == OpType::Airgroupvalue && global ==> match gi {
            Some(g) => r.airgroup_id <= g.agg_types@.len() && agg_offset(g.agg_types@, r.airgroup_id as int) + 3 * r.id
                <= u64::MAX,
            None => true,
        })
        &&& (r.op_type == OpType::XDivXSubXi && !global ==> ns + 3 <= u64::MAX)
        &&& (r.op_type == OpType::Zi && !global ==> ns + 2 <= u64::MAX && 1 + r.boundary_id <= u64::MAX)
    }
}

proof fn lemma_value_pos_range(stages: Seq<u64>, n: int)
    requires
        0 <= n <= stages.len(),
    ensures
        0 <= value_pos(stages, n) <= 3 * n,
    decreases n,
{
    if n > 0 {
        lemma_value_pos_range(stages, n - 1);
    }
}

/// The slots a value of stage `stage` takes: 1 in stage 1,
/// `FIELD_EXTENSION` otherwise.
pub open spec fn value_width(stage: u64) -> int {
    if stage == 1 { 1 } else { FIELD_EXTENSION as int }
}

/// The air, airgroup and proof values of an AIR sit one after another in
/// their buffers: the first is at position 0, and the next one starts where
/// the one before ends, one slot after a stage-1 value and
/// `FIELD_EXTENSION` slots after another.
pub proof fn lemma_value_positions(
    si: StarkInfo,
    r: CodeType,
    buffer: int,
    id1d: Seq<i64>,
    id3d: Seq<i64>,
    numbers: Seq<Seq<char>>,
    gi: Option<GlobalInfo>,
)
    requires
        r.op_type == OpType::Airvalue || r.op_type == OpType::Airgroupvalue || r.op_type == OpType::Proofvalue,
        r.id < (if r.op_type == OpType::Airvalue {
            si.air_values_map@.len()
        } else if r.op_type == OpType::Airgroupvalue {
            si.airgroup_values_map@.len()
        } else {
            si.proof_values_map@.len()
        }),
        3 * (r.id + 1) <= u64::MAX,
    ensures
        ({
            let m = if r.op_type == OpType::Airvalue {
                si.air_values_map@
            } else if r.op_type == OpType::Airgroupvalue {
                si.airgroup_values_map@
            } else {
                si.proof_values_map@
            };
            let a = operand_args(si, r, false, buffer, id1d, id3d, numbers, false, gi);
            let b = operand_args(si, CodeType { id: (r.id + 1) as u64, ..r }, false, buffer, id1d, id3d, numbers, false, gi);
            let z = operand_args(si, CodeType { id: 0, ..r }, false, buffer, id1d, id3d, numbers, false, gi);
            &&& a is Ok && b is Ok && z is Ok
            &&& z.unwrap()[1] == 0
            &&& b.unwrap()[1] == a.unwrap()[1] + value_width(m[r.id as int].stage)
        }),
{
    let m = if r.op_type == OpType::Airvalue {
        si.air_values_map@
    } else if r.op_type == OpType::Airgroupvalue {
        si.airgroup_values_map@
    } else {
        si.proof_values_map@
    };
    let st = pol_stages(m);
    lemma_value_pos_range(st, r.id as int);
    lemma_value_pos_range(st, r.id + 1);
    assert(st[r.id as int] == m[r.id as int].stage);
    assert(value_pos(st, 0) == 0);
}

/// The proof values of a global constraint sit one after another in the
/// same way, by the stages of the global proof values.
pub proof fn lemma_global_proof_value_positions(
    si: StarkInfo,
    r: CodeType,
    buffer: int,
    id1d: Seq<i64>,
    id3d: Seq<i64>,
    numbers: Seq<Seq<char>>,
    g: GlobalInfo,
)
    requires
        r.op_type == OpType::Proofvalue,
        r.id < g.proof_values_map@.len(),
        3 * (r.id + 1) <= u64::MAX,
    ensures
        ({
            let a = operand_args(si, r, false, buffer, id1d, id3d, numbers, true, Some(g));
            let b = operand_args(si, CodeType { id: (r.id + 1) as u64, ..r }, false, buffer, id1d, id3d, numbers, true, Some(g));
            let z = operand_args(si, CodeType { id: 0, ..r }, false, buffer, id1d, id3d, numbers, true, Some(g));
            &&& a is Ok && b is Ok && z is Ok
            &&& z.unwrap()[1] == 0
            &&& b.unwrap()[1] == a.unwrap()[1] + value_width(g.proof_values_map@[r.id as int].stage)
        }),
{
    let st = proof_value_stages(g.proof_values_map@);
    lemma_value_pos_range(st, r.id as int);
    lemma_value_pos_range(st, r.id + 1);
    assert(st[r.id as int] == g.proof_values_map@[r.id as int].stage);
    assert(value_pos(st, 0) == 0);
}

proof fn lemma_agg_offset_range(agg: Seq<Vec<u64>>, n: int)
    requires
        0 <= n <= agg.len(),
        forall|i: int| 0 <= i < agg.len() ==> (#[trigger] agg[i])@.len() < 0x1_0000_0000,
    ensures
        0 <= agg_offset(agg, n) <= 0x3_0000_0000 * n,
    decreases n,
{
    if n > 0 {
        lemma_agg_offset_range(agg, n - 1);
        assert(agg[n - 1]@.len() < 0x1_0000_0000);
    }
}

/// The airgroup values of a global constraint sit airgroup after airgroup:
/// those of the first airgroup start at 0, each value takes
/// `FIELD_EXTENSION` slots, and an airgroup's values start where those of
/// the airgroup before end (`FIELD_EXTENSION` slots per aggregation type).
pub proof fn lemma_global_airgroup_value_positions(
    si: StarkInfo,
    r: CodeType,
    buffer: int,
    id1d: Seq<i64>,
    id3d: Seq<i64>,
    numbers: Seq<Seq<char>>,
    g: GlobalInfo,
)
    requires
        r.op_type == OpType::Airgroupvalue,
        r.airgroup_id < g.agg_types@.len(),
        r.airgroup_id < 0x1_0000,
        r.id < 0x1_0000_0000,
        forall|i: int| 0 <= i < g.agg_types@.len() ==> (#[trigger] g.agg_types@[i])@.len() < 0x1_0000_0000,
    ensures
        ({
            let at = |id: u64, ag: u64| operand_args(si, CodeType { id, airgroup_id: ag, ..r }, false, buffer, id1d, id3d, numbers, true, Some(g));
            &&& at(r.id, r.airgroup_id) is Ok && at((r.id + 1) as u64, r.airgroup_id) is Ok
            &&& at(0, 0) is Ok && at(0, (r.airgroup_id + 1) as u64) is Ok && at(0, r.airgroup_id) is Ok
            &&& at(0, 0).unwrap()[1] == 0
            &&& at((r.id + 1) as u64, r.airgroup_id).unwrap()[1] == at(r.id, r.airgroup_id).unwrap()[1] + FIELD_EXTENSION
            &&& at(0, (r.airgroup_id + 1) as u64).unwrap()[1] == at(0, r.airgroup_id).unwrap()[1] + FIELD_EXTENSION
                * g.agg_types@[r.airgroup_id as int]@.len()
        }),
{
    lemma_agg_offset_range(g.agg_types@, r.airgroup_id as int);
    lemma_agg_offset_range(g.agg_types@, r.airgroup_id + 1);
    assert(agg_offset(g.agg_types@, 0) == 0);
}

proof fn lemma_value_pos_mono(stages: Seq<u64>, i: int, n: int)
    requires
        0 <= i <= n <= stages.len(),
    ensures
        value_pos(stages, i) <= value_pos(stages, n),
    decreases n - i,
{
    if i < n {
        lemma_value_pos_mono(stages, i, n - 1);
    }
}

proof fn lemma_agg_offset_mono(agg: Seq<Vec<u64>>, i: int, n: int)
    requires
        0 <= i <= n <= agg.len(),
    ensures
        0 <= agg_offset(agg, i) <= agg_offset(agg, n),
    decreases n,
{
    if n > 0 {
        if i < n {
            lemma_agg_offset_mono(agg, i, n - 1);
        } else {
            lemma_agg_offset_mono(agg, n - 1, n - 1);
        }
    }
}

/// Columns taken by the first `n` values of a polynomial map.
fn pol_value_pos(m: &Vec<PolMap>, n: u64) -> (pos: u64)
    requires
        n <= m@.len(),
        value_pos(pol_stages(m@), n as int) <= u64::MAX,
    ensures
        pos == value_pos(pol_stages(m@), n as int),
{
    let mut pos: u64 = 0;
    let mut i: u64 = 0;
    proof {
        assert(m@.len() == m.len());
    }
    while i < n
        invariant
            i <= n,
            n <= m@.len(),
            value_pos(pol_stages(m@), n as int) <= u64::MAX,
            m@.len() <= usize::MAX,
            pos == value_pos(pol_stages(m@), i as int),
        decreases n - i,
    {
        proof {
            lemma_value_pos_mono(pol_stages(m@), i as int + 1, n as int);
            assert(pol_stages(m@)[i as int] == m@[i as int].stage);
        }
        pos = pos + if m[i as usize].stage == 1 { 1 } else { FIELD_EXTENSION };
        i = i + 1;
    }
    pos
}

/// Columns taken by the first `n` global proof values.
fn global_value_pos(m: &Vec<ProofValueEntry>, n: u64) -> (pos: u64)
    requires
        n <= m@.len(),
        value_pos(proof_value_stages(m@), n as int) <= u64::MAX,
    ensures
        pos == value_pos(proof_value_stages(m@), n as int),
{
    let mut pos: u64 = 0;
    let mut i: u64 = 0;
    proof {
        assert(m@.len() == m.len());
    }
    while i < n
        invariant
            i <= n,
            n <= m@.len(),
            value_pos(proof_value_stages(m@), n as int) <= u64::MAX,
            m@.len() <= usize::MAX,
            pos == value_pos(proof_value_stages(m@), i as int),
        decreases n - i,
    {
        proof {
            lemma_value_pos_mono(proof_value_stages(m@), i as int + 1, n as int);
            assert(proof_value_stages(m@)[i as int] == m@[i as int].stage);
        }
        pos = pos + if m[i as usize].stage == 1 { 1 } else { FIELD_EXTENSION };
        i = i + 1;
    }
    pos
}

/// Index of the first opening point equal to `p`.
fn find_opening(points: &Vec<i64>, p: i64) -> (r: Option<usize>)
    ensures
        match r {
            Some(i) => first_index(points@, p) == i as int,
            None => first_index(points@, p) == -1,
        },
{
    let mut i: usize = 0;
    while i < points.len()
        invariant
            i <= points@.len(),
            first_index(points@.subrange(0, i as int), p) == -1,
        decreases points@.len() - i,
    {
        proof {
            assert(points@.subrange(0, i as int + 1).drop_last() =~= points@.subrange(0, i as int));
        }
        if points[i] == p {
            proof {
                lemma_first_index_prefix(points@, p, i as int + 1);
            }
            return Some(i);
        }
        i = i + 1;
    }
    assert(points@.subrange(0, i as int) =~= points@);
    None
}

/// The first occurrence in a prefix is the first occurrence in the whole.
proof fn lemma_first_index_prefix<A>(s: Seq<A>, x: A, n: int)
    requires
        0 <= n <= s.len(),
        first_index(s.subrange(0, n), x) >= 0,
    ensures
        first_index(s, x) == first_index(s.subrange(0, n), x),
    decreases s.len(),
{
    if n < s.len() {
        assert(s.drop_last().subrange(0, n) =~= s.subrange(0, n));
        lemma_first_index_prefix(s.drop_last(), x, n);
    } else {
        assert(s.subrange(0, n) =~= s);
    }
}

proof fn lemma_first_index_bounds<A>(s: Seq<A>, x: A)
    ensures
        -1 <= first_index(s, x) < s.len(),
        first_index(s, x) >= 0 ==> s[first_index(s, x)] == x,
        first_index(s, x) == -1 <==> !s.contains(x),
    decreases s.len(),
{
    if s.len() > 0 {
        lemma_first_index_bounds(s.drop_last(), x);
        if first_index(s.drop_last(), x) == -1 && s.last() != x {
            assert forall|i: int| 0 <= i < s.len() implies s[i] != x by {
                if i < s.len() - 1 {
                    assert(s[i] == s.drop_last()[i]);
                }
            }
        }
        if s.drop_last().contains(x) {
            let i = choose|i: int| 0 <= i < s.drop_last().len() && s.drop_last()[i] == x;
            assert(s[i] == x);
        }
    }
}

/// Index of `x` in the numbers table, adding it at the end when absent.
fn number_index(numbers: &mut Vec<String>, x: String) -> (pos: usize)
    ensures
        strings_view(final(numbers)@) == (if strings_view(old(numbers)@).contains(x@) {
            strings_view(old(numbers)@)
        } else {
            strings_view(old(numbers)@).push(x@)
        }),
        pos as int == first_index(strings_view(final(numbers)@), x@),
{
    let ghost nv = strings_view(numbers@);
    let mut i: usize = 0;
    while i < numbers.len()
        invariant
            i <= numbers@.len(),
            nv == strings_view(numbers@),
            first_index(nv.subrange(0, i as int), x@) == -1,
        decreases numbers@.len() - i,
    {
        proof {
            assert(nv.subrange(0, i as int + 1).drop_last() =~= nv.subrange(0, i as int));
        }
        if numbers[i] == x {
            proof {
                assert(nv.subrange(0, i as int + 1).last() == x@);
                lemma_first_index_prefix(nv, x@, i as int + 1);
                lemma_first_index_bounds(nv, x@);
            }
            return i;
        }
        i = i + 1;
    }
    proof {
        assert(nv.subrange(0, i as int) =~= nv);
        lemma_first_index_bounds(nv, x@);
    }
    let n = numbers.len();
    numbers.push(x);
    proof {
        assert(strings_view(numbers@) =~= nv.push(x@));
        assert(strings_view(numbers@).drop_last() =~= nv);
    }
    n
}

/// Decimal form of the canonical field value of a number operand.
fn number_string(v: u64) -> (s: String)
    ensures
        s@ == decimal(canon_number(v)),
{
    if v >= 0x8000_0000_0000_0000 {
        u64_to_decimal(v - 0xFFFF_FFFF)
    } else {
        u64_to_decimal(v)
    }
}

/// Pushes the arguments encoding one operand reference.
pub fn push_args(
    args: &mut Vec<u64>,
    r: &CodeType,
    dest: bool,
    stark_info: &StarkInfo,
    custom_commits_len: usize,
    id1d: &Vec<i64>,
    id3d: &Vec<i64>,
    numbers: &mut Vec<String>,
    global: bool,
    global_info: Option<&GlobalInfo>,
) -> (res: Result<(), SetupError>)
    requires
        operand_ok(
            *stark_info,
            *r,
            dest,
            1 + stark_info.n_stages + 3 + custom_commits_len,
            global,
            match global_info { Some(g) => Some(*g), None => None },
            id1d@,
            id3d@,
        ),
    ensures
        strings_view(final(numbers)@) == numbers_after(strings_view(old(numbers)@), *r, dest),
        match operand_args(
            *stark_info,
            *r,
            dest,
            1 + stark_info.n_stages + 3 + custom_commits_len,
            id1d@,
            id3d@,
            strings_view(old(numbers)@),
            global,
            match global_info { Some(g) => Some(*g), None => None },
        ) {
            Ok(a) => res is Ok && final(args)@ == old(args)@ + a,
            Err(e) => res == Err::<(), SetupError>(e) && final(args)@ == old(args)@,
        },
{
    let ghost gi = match global_info { Some(g) => Some(*g), None => None };
    let ghost a0 = args@;
    proof {
        assert(id1d@.len() == id1d.len());
        assert(id3d@.len() == id3d.len());
        assert(stark_info.cm_pols_map@.len() == stark_info.cm_pols_map.len());
        match global_info {
            Some(g) => {
                assert(g.agg_types@.len() == g.agg_types.len());
            },
            None => {},
        }
    }
    if dest && !matches!(r.op_type, OpType::Tmp) {
        return Err(SetupError::InvalidDestType);
    }
    let buffer_size: u64 = 1 + stark_info.n_stages + 3 + custom_commits_len as u64;
    match r.op_type {
        OpType::Tmp => {
            if r.dim == 1 {
                if !dest {
                    if !global {
                        args.push(buffer_size);
                    } else {
                        args.push(0);
                    }
                }
                args.push(id1d[r.id as usize] as u64);
            } else {
                if !dest {
                    if !global {
                        args.push(buffer_size + 1);
                    } else {
                        args.push(4);
                    }
                }
                args.push(FIELD_EXTENSION * id3d[r.id as usize] as u64);
            }
            if !global && !dest {
                args.push(0);
            }
        },
        OpType::Const | OpType::Custom | OpType::Cm => {
            if global {
                return Err(SetupError::NotAllowedInGlobal);
            }
            let prime_index = match find_opening(&stark_info.opening_points, r.prime as i64) {
                Some(i) => i,
                None => { return Err(SetupError::OpeningPointNotFound); },
            };
            match r.op_type {
                OpType::Const => {
                    args.push(0);
                    args.push(r.id);
                },
                OpType::Custom => {
                    args.push(stark_info.n_stages + 4 + r.commit_id);
                    args.push(r.id);
                },
                _ => {
                    args.push(stark_info.cm_pols_map[r.id as usize].stage);
                    args.push(stark_info.cm_pols_map[r.id as usize].stage_pos);
                },
            }
            args.push(prime_index as u64);
        },
        OpType::Number => {
            let num_string = number_string(r.value);
            let pos = number_index(numbers, num_string);
            if !global {
                args.push(buffer_size + 3);
            } else {
                args.push(2);
            }
            args.push(pos as u64);
            if !global {
                args.push(0);
            }
        },
        OpType::Public => {
            if !global {
                args.push(buffer_size + 2);
            } else {
                args.push(1);
            }
            args.push(r.id);
            if !global {
                args.push(0);
            }
        },
        OpType::Eval => {
            if global {
                return Err(SetupError::NotAllowedInGlobal);
            }
            args.push(buffer_size + 8);
            args.push(FIELD_EXTENSION * r.id);
            args.push(0);
        },
        OpType::Airvalue => {
            if global {
                return Err(SetupError::NotAllowedInGlobal);
            }
            args.push(buffer_size + 4);
            let pos = pol_value_pos(&stark_info.air_values_map, r.id);
            args.push(pos);
            args.push(0);
        },
        OpType::Proofvalue => {
            if !global {
                args.push(buffer_size + 5);
            } else {
                args.push(3);
            }
            let pos = if !global {
                pol_value_pos(&stark_info.proof_values_map, r.id)
            } else {
                match global_info {
                    Some(g) => global_value_pos(&g.proof_values_map, r.id),
                    None => 0,
                }
            };
            args.push(pos);
            if !global {
                args.push(0);
            }
        },
        OpType::Challenge => {
            if !global {
                args.push(buffer_size + 7);
            } else {
                args.push(6);
            }
            args.push(FIELD_EXTENSION * r.id);
            if !global {
                args.push(0);
            }
        },
        OpType::Airgroupvalue => {
            if !global {
                args.push(buffer_size + 6);
            } else {
                args.push(5);
            }
            if !global {
                let pos = pol_value_pos(&stark_info.airgroup_values_map, r.id);
                args.push(pos);
            } else {
                match global_info {
                    Some(g) => {
                        let mut offset: u64 = 0;
                        let mut i: u64 = 0;
                        while i < r.airgroup_id
                            invariant
                                i <= r.airgroup_id,
                                r.airgroup_id <= g.agg_types@.len(),
                                agg_offset(g.agg_types@, r.airgroup_id as int) + 3 * r.id <= u64::MAX,
                                g.agg_types@.len() <= usize::MAX,
                                offset == agg_offset(g.agg_types@, i as int),
                            decreases r.airgroup_id - i,
                        {
                            proof {
                                lemma_agg_offset_mono(g.agg_types@, i as int + 1, r.airgroup_id as int);
                                assert(g.agg_types@[i as int]@.len() == g.agg_types@[i as int].len());
                            }
                            offset = offset + FIELD_EXTENSION * g.agg_types[i as usize].len() as u64;
                            i = i + 1;
                        }
                        args.push(offset + FIELD_EXTENSION * r.id);
                    },
                    None => {},
                }
            }
            if !global {
                args.push(0);
            }
        },
        OpType::XDivXSubXi => {
            if global {
                return Err(SetupError::NotAllowedInGlobal);
            }
            args.push(stark_info.n_stages + 3);
            args.push(r.id);
            args.push(0);
        },
        OpType::Zi => {
            if global {
                return Err(SetupError::NotAllowedInGlobal);
            }
            args.push(stark_info.n_stages + 2);
            args.push(1 + r.boundary_id);
            args.push(0);
        },
        _ => {
            return Err(SetupError::UnknownType);
        },
    }
    proof {
        assert(args@ =~= a0 + operand_args(*stark_info, *r, dest, 1 + stark_info.n_stages + 3
            + custom_commits_len, id1d@, id3d@, strings_view(old(numbers)@), global, gi).unwrap());
    }
    Ok(())
}

/// `true` when some segment of `sub` carries id `x`.
pub open spec fn has_id(sub: Seq<[i64; 3]>, x: int) -> bool {
    exists|t: int| 0 <= t < sub.len() && (#[trigger] sub[t])[2] == x
}

proof fn lemma_assign_subset(arr: Seq<i64>, sub: Seq<[i64; 3]>, k: int, x: int)
    requires
        0 <= x < arr.len(),
    ensures
        assign_subset(arr, sub, k).len() == arr.len(),
        assign_subset(arr, sub, k)[x] == if has_id(sub, x) { k as i64 } else { arr[x] },
    decreases sub.len(),
{
    if sub.len() > 0 {
        lemma_assign_subset(arr, sub.drop_last(), k, x);
        if has_id(sub.drop_last(), x) {
            let t = choose|t: int| 0 <= t < sub.drop_last().len() && (#[trigger] sub.drop_last()[t])[2] == x;
            assert(sub[t][2] == x);
        }
        if has_id(sub, x) && sub.last()[2] != x {
            let t = choose|t: int| 0 <= t < sub.len() && (#[trigger] sub[t])[2] == x;
            assert(sub.drop_last()[t][2] == x);
        }
    } else {
        assert(!has_id(sub, x));
    }
}

/// After slot assignment an id that occurs in some subset holds a subset
/// index; any other entry is unchanged.
proof fn lemma_assign_slots(arr: Seq<i64>, subs: Seq<Seq<[i64; 3]>>, x: int)
    requires
        0 <= x < arr.len(),
        subs.len() < i64::MAX,
    ensures
        assign_slots(arr, subs).len() == arr.len(),
        (exists|k: int| 0 <= k < subs.len() && has_id(#[trigger] subs[k], x)) ==> 0 <= assign_slots(arr, subs)[x] < subs.len(),
        !(exists|k: int| 0 <= k < subs.len() && has_id(#[trigger] subs[k], x)) ==> assign_slots(arr, subs)[x] == arr[x],
    decreases subs.len(),
{
    if subs.len() > 0 {
        lemma_assign_slots(arr, subs.drop_last(), x);
        lemma_assign_subset(assign_slots(arr, subs.drop_last()), subs.last(), subs.len() - 1, x);
        if exists|k: int| 0 <= k < subs.drop_last().len() && has_id(#[trigger] subs.drop_last()[k], x) {
            let k = choose|k: int| 0 <= k < subs.drop_last().len() && has_id(#[trigger] subs.drop_last()[k], x);
            assert(has_id(subs[k], x));
        }
        if exists|k: int| 0 <= k < subs.len() && has_id(#[trigger] subs[k], x) {
            let k = choose|k: int| 0 <= k < subs.len() && has_id(#[trigger] subs[k], x);
            if k < subs.len() - 1 {
                assert(has_id(subs.drop_last()[k], x));
            }
        }
    }
}

/// `true` when `x` is in one of the subsets.
pub open spec fn in_subsets(subs: Seq<Seq<[i64; 3]>>, x: [i64; 3]) -> bool {
    exists|k: int| 0 <= k < subs.len() && (#[trigger] subs[k]).contains(x)
}

proof fn lemma_place_keeps(subs: Seq<Seq<[i64; 3]>>, seg: [i64; 3], x: [i64; 3])
    requires
        in_subsets(subs, x) || x == seg,
    ensures
        in_subsets(place(subs, seg), x),
{
    lemma_closest_in_range(subs, seg, subs.len() as int);
    let p = place(subs, seg);
    match closest_upto(subs, seg, subs.len() as int).0 {
        Some(i) => {
            if x == seg {
                assert(p[i].last() == seg);
                assert(p[i].contains(x));
            } else {
                let k = choose|k: int| 0 <= k < subs.len() && (#[trigger] subs[k]).contains(x);
                let t = choose|t: int| 0 <= t < subs[k].len() && subs[k][t] == x;
                if k == i {
                    assert(p[k][t] == x);
                    assert(p[k].contains(x));
                } else {
                    assert(p[k] == subs[k]);
                }
            }
        },
        None => {
            if x == seg {
                assert(p[subs.len() as int][0] == seg);
                assert(p[subs.len() as int].contains(x));
            } else {
                let k = choose|k: int| 0 <= k < subs.len() && (#[trigger] subs[k]).contains(x);
                assert(p[k] == subs[k]);
            }
        },
    }
}

/// Every segment ends up in one of the greedy subsets.
proof fn lemma_greedy_keeps(s: Seq<[i64; 3]>, x: [i64; 3])
    requires
        s.contains(x),
    ensures
        in_subsets(greedy(s), x),
    decreases s.len(),
{
    let t = choose|t: int| 0 <= t < s.len() && s[t] == x;
    if t < s.len() - 1 {
        assert(s.drop_last()[t] == x);
        lemma_greedy_keeps(s.drop_last(), x);
    }
    lemma_place_keeps(greedy(s.drop_last()), s.last(), x);
}

/// Sorting keeps every segment.
proof fn lemma_sort_keeps(s: Seq<[i64; 3]>, x: [i64; 3])
    requires
        s.contains(x),
    ensures
        sort_by_end(s).contains(x),
    decreases s.len(),
{
    let t0 = sort_by_end(s.drop_last());
    lemma_count_le(t0, s.last()[1]);
    let p = count_ends_le(t0, s.last()[1]) as int;
    let u = t0.insert(p, s.last());
    let t = choose|t: int| 0 <= t < s.len() && s[t] == x;
    if t < s.len() - 1 {
        assert(s.drop_last()[t] == x);
        lemma_sort_keeps(s.drop_last(), x);
        let q = choose|q: int| 0 <= q < t0.len() && t0[q] == x;
        if q < p {
            assert(u[q] == x);
        } else {
            assert(u[q + 1] == x);
        }
    } else {
        assert(u[p] == x);
    }
}

/// The ends of `t` never decrease.
pub open spec fn ends_sorted(t: Seq<[i64; 3]>) -> bool {
    forall|i: int, j: int| 0 <= i < j < t.len() ==> (#[trigger] t[i])[1] <= (#[trigger] t[j])[1]
}

proof fn lemma_count_sorted(t: Seq<[i64; 3]>, e: i64)
    requires
        ends_sorted(t),
    ensures
        forall|i: int| 0 <= i < t.len() ==> (i < count_ends_le(t, e) <==> (#[trigger] t[i])[1] <= e),
    decreases t.len(),
{
    if t.len() > 0 {
        let u = t.drop_last();
        assert forall|i: int, j: int| 0 <= i < j < u.len() implies (#[trigger] u[i])[1] <= (#[trigger] u[j])[1] by {
            assert(u[i] == t[i] && u[j] == t[j]);
        }
        lemma_count_sorted(u, e);
        lemma_count_le(u, e);
        assert forall|i: int| 0 <= i < t.len() implies (i < count_ends_le(t, e) <==> (#[trigger] t[i])[1] <= e) by {
            if i < t.len() - 1 {
                assert(u[i] == t[i]);
                if t.last()[1] <= e {
                    assert(t[i][1] <= t[t.len() - 1][1]);
                }
            }
        }
    }
}

proof fn lemma_sort_sorted(s: Seq<[i64; 3]>)
    ensures
        ends_sorted(sort_by_end(s)),
        sort_by_end(s).len() == s.len(),
        forall|x: [i64; 3]| sort_by_end(s).contains(x) ==> s.contains(x),
    decreases s.len(),
{
    if s.len() > 0 {
        let t = sort_by_end(s.drop_last());
        lemma_sort_sorted(s.drop_last());
        let e = s.last()[1];
        lemma_count_le(t, e);
        lemma_count_sorted(t, e);
        let p = count_ends_le(t, e) as int;
        let u = t.insert(p, s.last());
        assert forall|i: int, j: int| 0 <= i < j < u.len() implies (#[trigger] u[i])[1] <= (#[trigger] u[j])[1] by {
            if j < p {
                assert(u[i] == t[i] && u[j] == t[j]);
            } else if j == p {
                assert(u[i] == t[i]);
            } else if i == p {
                assert(u[j] == t[j - 1]);
            } else if i < p {
                assert(u[i] == t[i] && u[j] == t[j - 1]);
            } else {
                assert(u[i] == t[i - 1] && u[j] == t[j - 1]);
            }
        }
        assert forall|x: [i64; 3]| u.contains(x) implies s.contains(x) by {
            let q = choose|q: int| 0 <= q < u.len() && u[q] == x;
            if q == p {
                assert(s[s.len() - 1] == x);
            } else {
                let r = if q < p { q } else { q - 1 };
                assert(t[r] == x);
                assert(t.contains(x));
                assert(s.drop_last().contains(x));
                let w = choose|w: int| 0 <= w < s.drop_last().len() && s.drop_last()[w] == x;
                assert(s.drop_last()[w] == s[w]);
                assert(s[w] == x);
            }
        }
    }
}

/// A subset keeps its segments apart: each ends no later than the next begins.
pub open spec fn chain_ok(sub: Seq<[i64; 3]>) -> bool {
    forall|a: int, b: int| 0 <= a < b < sub.len() ==> (#[trigger] sub[a])[1] <= (#[trigger] sub[b])[0]
}

proof fn lemma_closest_free(subs: Seq<Seq<[i64; 3]>>, seg: [i64; 3], k: int)
    ensures
        match closest_upto(subs, seg, k).0 {
            Some(i) => !intersecting(seg, subs[i].last()),
            None => true,
        },
    decreases k,
{
    if k > 0 {
        lemma_closest_free(subs, seg, k - 1);
    }
}

proof fn lemma_greedy_chains(t: Seq<[i64; 3]>)
    requires
        ends_sorted(t),
        forall|i: int| 0 <= i < t.len() ==> (#[trigger] t[i])[0] < t[i][1],
    ensures
        forall|k: int| 0 <= k < greedy(t).len() ==> chain_ok(#[trigger] greedy(t)[k]) && greedy(t)[k].len() > 0,
        forall|k: int, a: int| 0 <= k < greedy(t).len() && 0 <= a < greedy(t)[k].len() ==> t.contains(#[trigger] greedy(t)[k][a]),
    decreases t.len(),
{
    if t.len() > 0 {
        let u = t.drop_last();
        assert forall|i: int, j: int| 0 <= i < j < u.len() implies (#[trigger] u[i])[1] <= (#[trigger] u[j])[1] by {
            assert(u[i] == t[i] && u[j] == t[j]);
        }
        assert forall|i: int| 0 <= i < u.len() implies (#[trigger] u[i])[0] < u[i][1] by {
            assert(u[i] == t[i]);
        }
        lemma_greedy_chains(u);
        let g = greedy(u);
        let seg = t.last();
        assert(t[t.len() - 1] == seg);
        lemma_closest_in_range(g, seg, g.len() as int);
        lemma_closest_free(g, seg, g.len() as int);
        let ng = place(g, seg);
        assert forall|k: int, a: int| 0 <= k < g.len() && 0 <= a < g[k].len() implies t.contains(#[trigger] g[k][a]) by {
            let w = choose|w: int| 0 <= w < u.len() && u[w] == g[k][a];
            assert(t[w] == g[k][a]);
        }
        match closest_upto(g, seg, g.len() as int).0 {
            Some(i) => {
                let old_sub = g[i];
                let last = old_sub.last();
                assert(t.contains(last));
                let wl = choose|w: int| 0 <= w < t.len() && t[w] == last;
                assert(last[0] < last[1]);
                if wl < t.len() - 1 {
                    assert(t[wl][1] <= t[t.len() - 1][1]);
                }
                assert(last[1] <= seg[0]);
                let ns = old_sub.push(seg);
                assert(chain_ok(old_sub));
                assert forall|a: int, b: int| 0 <= a < b < ns.len() implies (#[trigger] ns[a])[1] <= (#[trigger] ns[b])[0] by {
                    if b < old_sub.len() {
                        assert(ns[a] == old_sub[a] && ns[b] == old_sub[b]);
                    } else {
                        assert(ns[b] == seg);
                        assert(ns[a] == old_sub[a]);
                        if a < old_sub.len() - 1 {
                            assert(old_sub[a][1] <= old_sub[old_sub.len() - 1][0]);
                        }
                    }
                }
                assert forall|k: int| 0 <= k < ng.len() implies chain_ok(#[trigger] ng[k]) && ng[k].len() > 0 by {
                    if k == i {
                        assert(ng[k] == ns);
                    }
                }
                assert forall|k: int, a: int| 0 <= k < ng.len() && 0 <= a < ng[k].len() implies t.contains(#[trigger] ng[k][a]) by {
                    if k == i && a == ng[k].len() - 1 {
                        assert(ng[k][a] == seg);
                    } else if k == i {
                        assert(ng[k][a] == g[k][a]);
                    }
                }
            },
            None => {
                assert forall|k: int| 0 <= k < ng.len() implies chain_ok(#[trigger] ng[k]) && ng[k].len() > 0 by {
                    if k < g.len() {
                        assert(ng[k] == g[k]);
                    }
                }
                assert forall|k: int, a: int| 0 <= k < ng.len() && 0 <= a < ng[k].len() implies t.contains(#[trigger] ng[k][a]) by {
                    if k < g.len() {
                        assert(ng[k] == g[k]);
                    } else {
                        assert(ng[k][a] == seg);
                    }
                }
            },
        }
    }
}

/// The packing of temporaries' lifetimes is sound: within a subset, each
/// segment ends no later than the next begins (so no two of its segments
/// overlap and they can share one slot); no subset is empty; every segment
/// is placed, and only segments given are placed.
pub proof fn lemma_temporals_disjoint(s: Seq<[i64; 3]>)
    requires
        forall|i: int| 0 <= i < s.len() ==> (#[trigger] s[i])[0] < s[i][1],
    ensures
        forall|k: int, a: int, b: int|
            0 <= k < temporals(s).len() && 0 <= a < b < temporals(s)[k].len() ==> (#[trigger] temporals(s)[k][a])[1]
                <= (#[trigger] temporals(s)[k][b])[0] && !intersecting(temporals(s)[k][a], temporals(s)[k][b]),
        forall|k: int| 0 <= k < temporals(s).len() ==> (#[trigger] temporals(s)[k]).len() > 0,
        forall|x: [i64; 3]| s.contains(x) ==> in_subsets(temporals(s), x),
        forall|k: int, a: int| 0 <= k < temporals(s).len() && 0 <= a < temporals(s)[k].len() ==> s.contains(
            #[trigger] temporals(s)[k][a],
        ),
{
    let t = sort_by_end(s);
    lemma_sort_sorted(s);
    assert forall|i: int| 0 <= i < t.len() implies (#[trigger] t[i])[0] < t[i][1] by {
        assert(t.contains(t[i]));
        assert(s.contains(t[i]));
        let w = choose|w: int| 0 <= w < s.len() && s[w] == t[i];
        assert(s[w][0] < s[w][1]);
    }
    lemma_greedy_chains(t);
    let g = temporals(s);
    assert forall|k: int, a: int, b: int|
        0 <= k < g.len() && 0 <= a < b < g[k].len() implies (#[trigger] g[k][a])[1] <= (#[trigger] g[k][b])[0]
            && !intersecting(g[k][a], g[k][b]) by {
        assert(chain_ok(g[k]));
        assert(t.contains(g[k][b]));
        let w = choose|w: int| 0 <= w < t.len() && t[w] == g[k][b];
        assert(g[k][b][0] < g[k][b][1]);
    }
    assert forall|x: [i64; 3]| s.contains(x) implies in_subsets(g, x) by {
        lemma_sort_keeps(s, x);
        lemma_greedy_keeps(t, x);
    }
    assert forall|k: int, a: int| 0 <= k < g.len() && 0 <= a < g[k].len() implies s.contains(#[trigger] g[k][a]) by {
        assert(t.contains(g[k][a]));
    }
}

/// The lifetime segments hold a segment for each temporary that is used.
proof fn lemma_lifetimes_has(code: Seq<CodeOperation>, d: u64, m: int, id: int)
    requires
        0 <= id < m,
        m < i64::MAX,
        code.len() < i64::MAX,
        first_use(code, id as u64, d, code.len() as int) >= 0,
    ensures
        exists|t: int| 0 <= t < lifetimes(code, d, m).len() && (#[trigger] lifetimes(code, d, m)[t])[2] == id,
    decreases m,
{
    if id < m - 1 {
        lemma_lifetimes_has(code, d, m - 1, id);
        let t = choose|t: int| 0 <= t < lifetimes(code, d, m - 1).len() && (#[trigger] lifetimes(code, d, m - 1)[t])[2] == id;
        assert(lifetimes(code, d, m)[t] == lifetimes(code, d, m - 1)[t]);
    } else {
        let l = lifetimes(code, d, m);
        assert(l[l.len() - 1][2] == id);
    }
}

/// A temporary used by operation `j` has a first use.
proof fn lemma_first_use_found(code: Seq<CodeOperation>, id: u64, d: u64, j: int, n: int)
    requires
        0 <= j < n <= code.len(),
        occurs(code[j], id, d),
    ensures
        first_use(code, id, d, n) >= 0,
    decreases n,
{
    lemma_uses_bounds(code, id, d, n - 1);
    if j < n - 1 {
        lemma_first_use_found(code, id, d, j, n - 1);
    }
}

/// A used temporary gets a slot below the number of subsets.
proof fn lemma_slot_assigned(code: Seq<CodeOperation>, d: u64, maxid: int, arr: Seq<i64>, j: int, id: u64)
    requires
        maxid < i64::MAX,
        code.len() < i64::MAX,
        arr.len() == maxid,
        0 <= j < code.len(),
        occurs(code[j], id, d),
        id < maxid,
    ensures
        0 <= assign_slots(arr, temporals(lifetimes(code, d, maxid)))[id as int] < temporals(lifetimes(code, d, maxid)).len(),
        temporals(lifetimes(code, d, maxid)).len() <= maxid,
{
    let l = lifetimes(code, d, maxid);
    lemma_first_use_found(code, id, d, j, code.len() as int);
    lemma_lifetimes_has(code, d, maxid, id as int);
    let t = choose|t: int| 0 <= t < l.len() && (#[trigger] l[t])[2] == id as int;
    lemma_sort_keeps(l, l[t]);
    lemma_greedy_keeps(sort_by_end(l), l[t]);
    let subs = temporals(l);
    let k = choose|k: int| 0 <= k < subs.len() && (#[trigger] subs[k]).contains(l[t]);
    let q = choose|q: int| 0 <= q < subs[k].len() && subs[k][q] == l[t];
    assert(has_id(subs[k], id as int));
    lemma_temporals_len(l);
    lemma_lifetimes_len(code, d, maxid);
    lemma_assign_slots(arr, subs, id as int);
}

/// `prefix` followed by `n` and a closing bracket.
pub open spec fn bracketed(prefix: Seq<char>, n: Seq<char>) -> Seq<char> {
    prefix + n + "]"@
}

/// Rust expression reading operand `r` in the generated verifier.
pub open spec fn operand_text(r: CodeType, id1d: Seq<i64>, id3d: Seq<i64>, si: StarkInfo) -> Seq<char> {
    match r.op_type {
        OpType::Tmp => if r.dim == 1 {
            bracketed("tmp_1["@, signed_decimal(id1d[r.id as int] as int))
        } else {
            bracketed("tmp_3["@, signed_decimal(id3d[r.id as int] as int))
        },
        OpType::Const => bracketed("vals[0]["@, decimal(r.id as nat)),
        OpType::Cm => {
            let pol = si.cm_pols_map@[r.id as int];
            let st = decimal(pol.stage as nat);
            if r.dim == 1 {
                bracketed("vals["@ + st + "]["@, decimal(pol.stage_pos as nat))
            } else {
                "CubicExtensionField { value: ["@ + bracketed("vals["@ + st + "]["@, decimal(pol.stage_pos as nat))
                    + ", "@ + bracketed("vals["@ + st + "]["@, decimal((pol.stage_pos + 1) as nat))
                    + ", "@ + bracketed("vals["@ + st + "]["@, decimal((pol.stage_pos + 2) as nat)) + "] }"@
            }
        },
        OpType::Custom => bracketed("vals["@ + decimal((si.n_stages + 1 + r.commit_id) as nat) + "]["@, decimal(r.id as nat)),
        OpType::Public => bracketed("_publics["@, decimal(r.id as nat)),
        OpType::Eval => bracketed("evals["@, decimal(r.id as nat)),
        OpType::Challenge => bracketed("challenges["@, decimal(r.id as nat)),
        OpType::Number => "Goldilocks::new("@ + decimal(canon_number(r.value)) + ")"@,
        OpType::Airvalue => bracketed("air_values["@, decimal(r.id as nat)),
        OpType::Proofvalue => bracketed("proof_values["@, decimal(r.id as nat)),
        OpType::Airgroupvalue => bracketed("airgroup_values["@, decimal(r.id as nat)),
        OpType::Zi => bracketed("zi["@, decimal(r.boundary_id as nat)),
        OpType::XDivXSubXi => bracketed("xdivxsub["@, decimal(r.id as nat)),
        _ => "xi_challenge"@,
    }
}

/// Operand `r` can be read in the generated verifier.
pub open spec fn verify_operand_ok(r: CodeType, id1d: Seq<i64>, id3d: Seq<i64>, si: StarkInfo) -> bool {
    &&& !(r.op_type == OpType::StringVal || r.op_type == OpType::Q || r.op_type == OpType::F)
    &&& r.id < 0x1_0000_0000
    &&& (r.op_type == OpType::Tmp ==> r.id < id1d.len() && r.id < id3d.len())
    &&& (r.op_type == OpType::Cm ==> r.id < si.cm_pols_map@.len() && si.cm_pols_map@[r.id as int].stage_pos
        < 0x1_0000_0000_0000_0000 - 2)
    &&& (r.op_type == OpType::Custom ==> si.n_stages + 1 + r.commit_id < 0x1_0000_0000_0000_0000)
}

/// `prefix` followed by the decimal form of `n` and a closing bracket.
fn bracketed_u64(prefix: &str, n: u64) -> (s: String)
    ensures
        s@ == bracketed(prefix@, decimal(n as nat)),
{
    let d = u64_to_decimal(n);
    let mut s = concat(prefix, d.as_str());
    s.append("]");
    s
}

/// `prefix` followed by the signed decimal form of `n` and a closing bracket.
fn bracketed_i64(prefix: &str, n: i64) -> (s: String)
    ensures
        s@ == bracketed(prefix@, signed_decimal(n as int)),
{
    let d = i64_to_decimal(n);
    let mut s = concat(prefix, d.as_str());
    s.append("]");
    s
}

/// A committed column entry `vals[stage][pos]`.
fn vals_entry(stage: u64, pos: u64) -> (s: String)
    ensures
        s@ == bracketed("vals["@ + decimal(stage as nat) + "]["@, decimal(pos as nat)),
{
    let st = u64_to_decimal(stage);
    let mut p = concat("vals[", st.as_str());
    p.append("][");
    bracketed_u64(p.as_str(), pos)
}

/// Rust expression reading an operand in the generated verifier.
pub fn get_operation_verify(r: &CodeType, id1d: &Vec<i64>, id3d: &Vec<i64>, stark_info: &StarkInfo) -> (s: String)
    requires
        verify_operand_ok(*r, id1d@, id3d@, *stark_info),
    ensures
        s@ == operand_text(*r, id1d@, id3d@, *stark_info),
{
    match r.op_type {
        OpType::Tmp => {
            if r.dim == 1 {
                bracketed_i64("tmp_1[", id1d[r.id as usize])
            } else {
                bracketed_i64("tmp_3[", id3d[r.id as usize])
            }
        },
        OpType::Const => bracketed_u64("vals[0][", r.id),
        OpType::Cm => {
            let stage = stark_info.cm_pols_map[r.id as usize].stage;
            let pos = stark_info.cm_pols_map[r.id as usize].stage_pos;
            if r.dim == 1 {
                vals_entry(stage, pos)
            } else {
                let a = vals_entry(stage, pos);
                let b = vals_entry(stage, pos + 1);
                let c = vals_entry(stage, pos + 2);
                let mut s = owned("CubicExtensionField { value: [");
                s.append(a.as_str());
                s.append(", ");
                s.append(b.as_str());
                s.append(", ");
                s.append(c.as_str());
                s.append("] }");
                s
            }
        },
        OpType::Custom => {
            let st = u64_to_decimal(stark_info.n_stages + 1 + r.commit_id);
            let mut p = concat("vals[", st.as_str());
            p.append("][");
            bracketed_u64(p.as_str(), r.id)
        },
        OpType::Public => bracketed_u64("_publics[", r.id),
        OpType::Eval => bracketed_u64("evals[", r.id),
        OpType::Challenge => bracketed_u64("challenges[", r.id),
        OpType::Number => {
            let n = number_string(r.value);
            let mut s = concat("Goldilocks::new(", n.as_str());
            s.append(")");
            s
        },
        OpType::Airvalue => bracketed_u64("air_values[", r.id),
        OpType::Proofvalue => bracketed_u64("proof_values[", r.id),
        OpType::Airgroupvalue => bracketed_u64("airgroup_values[", r.id),
        OpType::Zi => bracketed_u64("zi[", r.boundary_id),
        OpType::XDivXSubXi => bracketed_u64("xdivxsub[", r.id),
        _ => owned("xi_challenge"),
    }
}

/// Parsed expression info produced by `get_parser_args`.
#[derive(Debug, Clone)]
pub struct ExpsInfo {
    pub n_temp1: u64,
    pub n_temp3: u64,
    pub ops: Vec<u64>,
    pub args: Vec<u64>,
    pub dest_dim: u64,
    pub dest_id: u64,
    /// Set by callers after `get_parser_args` returns.
    pub exp_id: u64,
    pub stage: u64,
    pub line: String,
    pub first_row: u64,
    pub last_row: u64,
    pub im_pol: u64,
}

/// Encoded expression plus, when asked for, the Rust source lines of the
/// verifier.
#[derive(Debug, Clone)]
pub struct ParserArgsResult {
    pub exps_info: ExpsInfo,
    pub verify_rust: Vec<String>,
}

/// Number of temporary ids the slot compaction considers.
pub const MAX_TMP_ID: usize = 1_000_000;

/// Encoding of the first `k` sources, threading the numbers table.
pub open spec fn encode_srcs(
    si: StarkInfo,
    srcs: Seq<CodeType>,
    k: int,
    buffer: int,
    id1d: Seq<i64>,
    id3d: Seq<i64>,
    numbers: Seq<Seq<char>>,
    global: bool,
    gi: Option<GlobalInfo>,
) -> (Result<Seq<u64>, SetupError>, Seq<Seq<char>>)
    decreases k,
{
    if k <= 0 {
        (Ok(Seq::empty()), numbers)
    } else {
        let (prev, nb) = encode_srcs(si, srcs, k - 1, buffer, id1d, id3d, numbers, global, gi);
        match prev {
            Err(e) => (Err(e), nb),
            Ok(a) => {
                let nb2 = numbers_after(nb, srcs[k - 1], false);
                match operand_args(si, srcs[k - 1], false, buffer, id1d, id3d, nb, global, gi) {
                    Err(e) => (Err(e), nb2),
                    Ok(b) => (Ok(a + b), nb2),
                }
            },
        }
    }
}

/// Encoding of one operation: its table index and its arguments
/// (operation code, destination, ordered sources).
pub open spec fn encode_op(
    si: StarkInfo,
    c: CodeOperation,
    verify: bool,
    buffer: int,
    id1d: Seq<i64>,
    id3d: Seq<i64>,
    numbers: Seq<Seq<char>>,
    global: bool,
    gi: Option<GlobalInfo>,
) -> (Result<(u64, Seq<u64>), SetupError>, Seq<Seq<char>>) {
    let (op, _dd, srcs, d0, d1) = operation(c, verify);
    let nb1 = numbers_after(numbers, c.dest, true);
    match operand_args(si, c.dest, true, buffer, id1d, id3d, numbers, global, gi) {
        Err(e) => (Err(e), nb1),
        Ok(da) => {
            let (rs, nb2) = encode_srcs(si, srcs, srcs.len() as int, buffer, id1d, id3d, nb1, global, gi);
            match rs {
                Err(e) => (Err(e), nb2),
                Ok(sa) => match operations_index(c.dest.dim, d0, d1) {
                    None => (Err(SetupError::OperationNotConsidered), nb2),
                    Some(ix) => (Ok((ix, seq![op_code(op)] + da + sa)), nb2),
                },
            }
        },
    }
}

/// Encoding of the first `n` operations: operation indices and arguments.
pub open spec fn encode_code(
    si: StarkInfo,
    code: Seq<CodeOperation>,
    n: int,
    verify: bool,
    buffer: int,
    id1d: Seq<i64>,
    id3d: Seq<i64>,
    numbers: Seq<Seq<char>>,
    global: bool,
    gi: Option<GlobalInfo>,
) -> (Result<(Seq<u64>, Seq<u64>), SetupError>, Seq<Seq<char>>)
    decreases n,
{
    if n <= 0 {
        (Ok((Seq::empty(), Seq::empty())), numbers)
    } else {
        let (prev, nb) = encode_code(si, code, n - 1, verify, buffer, id1d, id3d, numbers, global, gi);
        match prev {
            Err(e) => (Err(e), nb),
            Ok((ops, args)) => {
                let (r, nb2) = encode_op(si, code[n - 1], verify, buffer, id1d, id3d, nb, global, gi);
                match r {
                    Err(e) => (Err(e), nb2),
                    Ok((ix, a)) => (Ok((ops.push(ix), args + a)), nb2),
                }
            },
        }
    }
}

/// Slots of the temporaries of dimension `d`, starting from unassigned (-1).
pub open spec fn slot_map(code: Seq<CodeOperation>, d: u64) -> Seq<i64> {
    assign_slots(Seq::new(MAX_TMP_ID as nat, |i: int| -1i64), temporals(lifetimes(code, d, MAX_TMP_ID as int)))
}

/// Number of slots of dimension `d`.
pub open spec fn slot_count(code: Seq<CodeOperation>, d: u64) -> nat {
    temporals(lifetimes(code, d, MAX_TMP_ID as int)).len()
}

/// The verifier line computing operation `c`.
pub open spec fn verify_line(c: CodeOperation, id1d: Seq<i64>, id3d: Seq<i64>, si: StarkInfo) -> Seq<char> {
    let d = operand_text(c.dest, id1d, id3d, si);
    if c.op == CodeOp::Copy {
        "    "@ + d + " = "@ + operand_text(c.src@[0], id1d, id3d, si) + ";"@
    } else {
        let swapped = c.src@[0].dim == 1 && c.src@[1].dim == 3;
        let a = operand_text(if swapped { c.src@[1] } else { c.src@[0] }, id1d, id3d, si);
        let b = operand_text(if swapped { c.src@[0] } else { c.src@[1] }, id1d, id3d, si);
        if c.op == CodeOp::Mul {
            "    "@ + d + " = "@ + a + " * "@ + b + ";"@
        } else if c.op == CodeOp::Add {
            "    "@ + d + " = "@ + a + " + "@ + b + ";"@
        } else if swapped {
            "    "@ + d + " = "@ + a + ".sub_from_scalar("@ + b + ");"@
        } else {
            "    "@ + d + " = "@ + a + " - "@ + b + ";"@
        }
    }
}

/// The verifier lines of all operations.
pub open spec fn verify_lines(code: Seq<CodeOperation>, id1d: Seq<i64>, id3d: Seq<i64>, si: StarkInfo) -> Seq<Seq<char>> {
    code.map_values(|c: CodeOperation| verify_line(c, id1d, id3d, si))
}

/// Declaration of the dimension-1 temporaries.
pub open spec fn tmp1_decl(n: nat) -> Seq<char> {
    "    let mut tmp_1 = vec![Goldilocks::ZERO; "@ + decimal(n) + "];"@
}

/// Declaration of the dimension-3 temporaries.
pub open spec fn tmp3_decl(n: nat) -> Seq<char> {
    "    let mut tmp_3 = vec![CubicExtensionField { value: [Goldilocks::ZERO, Goldilocks::ZERO, Goldilocks::ZERO] }; "@
        + decimal(n) + "];"@
}

/// The complete verifier function body for `code`.
pub open spec fn verify_body(code: Seq<CodeOperation>, si: StarkInfo) -> Seq<Seq<char>> {
    let c1 = slot_count(code, 1);
    let c3 = slot_count(code, 3);
    let id1d = slot_map(code, 1);
    let id3d = slot_map(code, 3);
    let dest = code.last().dest;
    let head: Seq<Seq<char>> = (if c1 > 0 { seq![tmp1_decl(c1)] } else { Seq::empty() }) + (if c3 > 0 {
        seq![tmp3_decl(c3)]
    } else {
        Seq::empty()
    });
    let ret = if dest.dim == 1 {
        "    return "@ + bracketed("tmp_1["@, signed_decimal(id1d[dest.id as int] as int)) + ";"@
    } else {
        "    return "@ + bracketed("tmp_3["@, signed_decimal(id3d[dest.id as int] as int)) + ";"@
    };
    head + verify_lines(code, id1d, id3d, si).push(ret)
}

/// The inputs `get_parser_args` accepts: temporaries in range, sources
/// orderable, operands encodable (and printable when generating the verifier).
pub open spec fn parser_args_ok(si: StarkInfo, code: Seq<CodeOperation>, global: bool, verify: bool, gi: Option<GlobalInfo>) -> bool {
    &&& code.len() > 0
    &&& code.len() < 0x1_0000_0000
    &&& tmps_in_range(code, MAX_TMP_ID as nat)
    &&& forall|j: int| 0 <= j < code.len() ==> {
        &&& operation_ok(#[trigger] code[j], verify)
        &&& operand_static_ok(si, code[j].dest, true, parser_buffer(si, global), global, gi)
        &&& forall|k: int| 0 <= k < code[j].src@.len() ==> operand_static_ok(si, #[trigger] code[j].src@[k], false,
            parser_buffer(si, global), global, gi)
        &&& verify ==> {
            &&& (code[j].op == CodeOp::Copy ==> code[j].src@.len() >= 1)
            &&& (code[j].op != CodeOp::Copy ==> code[j].src@.len() >= 2)
            &&& verify_operand_ok(code[j].dest, slot_map(code, 1), slot_map(code, 3), si)
            &&& forall|k: int| 0 <= k < code[j].src@.len() ==> verify_operand_ok(#[trigger] code[j].src@[k],
                slot_map(code, 1), slot_map(code, 3), si)
        }
    }
}

/// The ordered sources are the sources, with the first two possibly swapped.
proof fn lemma_sorted_from_src(c: CodeOperation, verify: bool, k: int) -> (k2: int)
    requires
        0 <= k < operation(c, verify).2.len(),
    ensures
        0 <= k2 < c.src@.len(),
        operation(c, verify).2[k] == c.src@[k2],
        operation(c, verify).2.len() == c.src@.len(),
{
    let src = c.src@;
    if src.len() >= 2 && swap_value(src[0], src[1], verify) > 0 {
        if k == 0 { 1 } else if k == 1 { 0 } else { k }
    } else {
        k
    }
}

/// An operand of operation `j` meets `operand_ok` against the computed slots.
proof fn lemma_operand_ok(
    si: StarkInfo,
    code: Seq<CodeOperation>,
    j: int,
    r: CodeType,
    dest: bool,
    buffer: int,
    global: bool,
    gi: Option<GlobalInfo>,
    id1d: Seq<i64>,
    id3d: Seq<i64>,
)
    requires
        0 <= j < code.len(),
        code.len() < 0x1_0000_0000,
        tmps_in_range(code, MAX_TMP_ID as nat),
        operand_static_ok(si, r, dest, buffer, global, gi),
        r == code[j].dest || exists|k: int| 0 <= k < code[j].src@.len() && code[j].src@[k] == r,
        id1d == slot_map(code, 1),
        id3d == slot_map(code, 3),
    ensures
        operand_ok(si, r, dest, buffer, global, gi, id1d, id3d),
{
    if r.op_type == OpType::Tmp {
        let c = code[j];
        if r == c.dest {
            assert(is_tmp(c.dest, r.id, r.dim));
        } else {
            let k = choose|k: int| 0 <= k < c.src@.len() && c.src@[k] == r;
            assert(is_tmp(c.src@[k], r.id, r.dim));
            assert(occurs_upto(c, r.id, r.dim, c.src@.len() as int));
        }
        assert(occurs(c, r.id, r.dim));
        let init = Seq::new(MAX_TMP_ID as nat, |i: int| -1i64);
        lemma_lifetimes_len(code, 1, MAX_TMP_ID as int);
        lemma_lifetimes_len(code, 3, MAX_TMP_ID as int);
        lemma_temporals_len(lifetimes(code, 1, MAX_TMP_ID as int));
        lemma_temporals_len(lifetimes(code, 3, MAX_TMP_ID as int));
        lemma_assign_slots(init, temporals(lifetimes(code, 1, MAX_TMP_ID as int)), r.id as int);
        lemma_assign_slots(init, temporals(lifetimes(code, 3, MAX_TMP_ID as int)), r.id as int);
        if r.dim == 3 {
            lemma_slot_assigned(code, 3, MAX_TMP_ID as int, init, j, r.id);
        }
    }
}

/// Encodes the ordered sources of operation `j`, appending their arguments.
fn encode_sources(
    args: &mut Vec<u64>,
    sorted_src: &Vec<CodeType>,
    stark_info: &StarkInfo,
    cc_len: usize,
    id1d: &Vec<i64>,
    id3d: &Vec<i64>,
    numbers: &mut Vec<String>,
    global: bool,
    global_info: Option<&GlobalInfo>,
    Ghost(code): Ghost<Seq<CodeOperation>>,
    Ghost(j): Ghost<int>,
    verify: bool,
) -> (res: Result<(), SetupError>)
    requires
        0 <= j < code.len(),
        code.len() < 0x1_0000_0000,
        tmps_in_range(code, MAX_TMP_ID as nat),
        forall|k: int| 0 <= k < code[j].src@.len() ==> operand_static_ok(*stark_info, #[trigger] code[j].src@[k],
            false, 1 + stark_info.n_stages + 3 + cc_len, global, match global_info { Some(g) => Some(*g), None => None }),
        sorted_src@ == operation(code[j], verify).2,
        id1d@ == slot_map(code, 1),
        id3d@ == slot_map(code, 3),
    ensures
        ({
            let (rs, nb) = encode_srcs(*stark_info, sorted_src@, sorted_src@.len() as int, 1 + stark_info.n_stages + 3
                + cc_len, id1d@, id3d@, strings_view(old(numbers)@), global, match global_info { Some(g) => Some(*g), None => None });
            &&& strings_view(final(numbers)@) == nb
            &&& match rs {
                Ok(a) => res is Ok && final(args)@ == old(args)@ + a,
                Err(e) => res == Err::<(), SetupError>(e),
            }
        }),
{
    let ghost gi = match global_info { Some(g) => Some(*g), None => None };
    let ghost buffer = 1 + stark_info.n_stages + 3 + cc_len;
    let ghost nb1 = strings_view(numbers@);
    let ghost args0 = args@;
    let m = sorted_src.len();
    let mut k: usize = 0;
    while k < m
        invariant
            m == sorted_src@.len(),
            k <= m,
            nb1 == strings_view(old(numbers)@),
            0 <= j < code.len(),
            code.len() < 0x1_0000_0000,
            tmps_in_range(code, MAX_TMP_ID as nat),
            gi == match global_info { Some(g) => Some(*g), None => None },
            buffer == 1 + stark_info.n_stages + 3 + cc_len,
            forall|k: int| 0 <= k < code[j].src@.len() ==> operand_static_ok(*stark_info, #[trigger] code[j].src@[k],
                false, buffer, global, gi),
            sorted_src@ == operation(code[j], verify).2,
            id1d@ == slot_map(code, 1),
            id3d@ == slot_map(code, 3),
            encode_srcs(*stark_info, sorted_src@, k as int, buffer, id1d@, id3d@, nb1, global, gi).0 is Ok,
            args@ == args0 + encode_srcs(*stark_info, sorted_src@, k as int, buffer, id1d@, id3d@, nb1, global, gi).0.unwrap(),
            strings_view(numbers@) == encode_srcs(*stark_info, sorted_src@, k as int, buffer, id1d@, id3d@, nb1, global, gi).1,
        decreases m - k,
    {
        proof {
            let k2 = lemma_sorted_from_src(code[j], verify, k as int);
            assert(operand_static_ok(*stark_info, code[j].src@[k2], false, buffer, global, gi));
            lemma_operand_ok(*stark_info, code, j, sorted_src@[k as int], false, buffer, global, gi, id1d@, id3d@);
        }
        let pr2 = push_args(args, &sorted_src[k], false, stark_info, cc_len, id1d, id3d, numbers, global, global_info);
        if pr2.is_err() {
            proof {
                assert(encode_srcs(*stark_info, sorted_src@, k as int + 1, buffer, id1d@, id3d@, nb1, global, gi) == (
                    Err::<Seq<u64>, SetupError>(pr2.unwrap_err()), strings_view(numbers@)));
                lemma_encode_srcs_err(*stark_info, sorted_src@, k as int + 1, m as int, buffer, id1d@, id3d@, nb1, global, gi);
            }
            return Err(pr2.unwrap_err());
        }
        proof {
            let prev = encode_srcs(*stark_info, sorted_src@, k as int, buffer, id1d@, id3d@, nb1, global, gi);
            assert(args@ =~= args0 + encode_srcs(*stark_info, sorted_src@, k as int + 1, buffer, id1d@, id3d@, nb1,
                global, gi).0.unwrap());
        }
        k = k + 1;
    }
    Ok(())
}

/// Encodes operation `j`: pushes its arguments and returns its table index.
fn encode_one(
    args: &mut Vec<u64>,
    r: &CodeOperation,
    stark_info: &StarkInfo,
    cc_len: usize,
    id1d: &Vec<i64>,
    id3d: &Vec<i64>,
    numbers: &mut Vec<String>,
    global: bool,
    verify: bool,
    global_info: Option<&GlobalInfo>,
    Ghost(code): Ghost<Seq<CodeOperation>>,
    Ghost(j): Ghost<int>,
) -> (res: Result<u64, SetupError>)
    requires
        0 <= j < code.len(),
        *r == code[j],
        parser_args_ok(*stark_info, code, global, verify, match global_info { Some(g) => Some(*g), None => None }),
        cc_len == if global { 0 } else { stark_info.custom_commits@.len() },
        id1d@ == slot_map(code, 1),
        id3d@ == slot_map(code, 3),
    ensures
        ({
            let (e, nb) = encode_op(*stark_info, *r, verify, 1 + stark_info.n_stages + 3 + cc_len, id1d@, id3d@,
                strings_view(old(numbers)@), global, match global_info { Some(g) => Some(*g), None => None });
            &&& strings_view(final(numbers)@) == nb
            &&& match e {
                Ok((ix, a)) => res == Ok::<u64, SetupError>(ix) && final(args)@ == old(args)@ + a,
                Err(er) => res == Err::<u64, SetupError>(er),
            }
        }),
{
    let ghost gi = match global_info { Some(g) => Some(*g), None => None };
    let ghost args0 = args@;
    assert(operation_ok(code[j], verify));
    let (op, _dest_dim_val, sorted_src, src0_dim, src1_dim) = get_operation(r, verify);
    args.push(operation_type_code(op));
    proof {
        lemma_operand_ok(*stark_info, code, j, r.dest, true, 1 + stark_info.n_stages + 3 + cc_len, global, gi, id1d@, id3d@);
    }
    let pr = push_args(args, &r.dest, true, stark_info, cc_len, id1d, id3d, numbers, global, global_info);
    if pr.is_err() {
        return Err(pr.unwrap_err());
    }
    let ghost args1 = args@;
    let ps = encode_sources(args, &sorted_src, stark_info, cc_len, id1d, id3d, numbers, global, global_info,
        Ghost(code), Ghost(j), verify);
    if ps.is_err() {
        return Err(ps.unwrap_err());
    }
    if r.dest.dim == 1 && src0_dim == 1 && src1_dim == 1 {
        Ok(0)
    } else if r.dest.dim == 3 && src0_dim == 3 && src1_dim == 1 {
        Ok(1)
    } else if r.dest.dim == 3 && src0_dim == 3 && src1_dim == 3 {
        Ok(2)
    } else {
        Err(SetupError::OperationNotConsidered)
    }
}

/// Every destination of a successfully encoded prefix is a temporary.
proof fn lemma_encoded_dests_tmp(
    si: StarkInfo,
    code: Seq<CodeOperation>,
    n: int,
    verify: bool,
    buffer: int,
    id1d: Seq<i64>,
    id3d: Seq<i64>,
    numbers: Seq<Seq<char>>,
    global: bool,
    gi: Option<GlobalInfo>,
    t: int,
)
    requires
        0 <= t < n <= code.len(),
        encode_code(si, code, n, verify, buffer, id1d, id3d, numbers, global, gi).0 is Ok,
    ensures
        code[t].dest.op_type == OpType::Tmp,
    decreases n,
{
    if t < n - 1 {
        lemma_encoded_dests_tmp(si, code, n - 1, verify, buffer, id1d, id3d, numbers, global, gi, t);
    }
}

/// The Rust source lines of the verifier for `code`.
fn verify_rust_lines(
    code_info_code: &[CodeOperation],
    id1d: &Vec<i64>,
    id3d: &Vec<i64>,
    count1d: u64,
    count3d: u64,
    stark_info: &StarkInfo,
    global: bool,
    gi: Ghost<Option<GlobalInfo>>,
) -> (res: Result<Vec<String>, SetupError>)
    requires
        parser_args_ok(*stark_info, code_info_code@, global, true, gi@),
        id1d@ == slot_map(code_info_code@, 1),
        id3d@ == slot_map(code_info_code@, 3),
        count1d == slot_count(code_info_code@, 1),
        count3d == slot_count(code_info_code@, 3),
        code_info_code@.last().dest.op_type == OpType::Tmp,
    ensures
        match res {
            Ok(v) => strings_view(v@) == verify_body(code_info_code@, *stark_info) && (code_info_code@.last().dest.dim
                == 1 || code_info_code@.last().dest.dim == 3),
            Err(e) => e == SetupError::UnknownDestinationDimension && code_info_code@.last().dest.dim != 1
                && code_info_code@.last().dest.dim != 3,
        },
{
    let ghost code = code_info_code@;
    let n = code_info_code.len();
    let mut verify_rust: Vec<String> = Vec::new();
    if count1d > 0 {
        let c1 = u64_to_decimal(count1d);
        let mut line = owned("    let mut tmp_1 = vec![Goldilocks::ZERO; ");
        line.append(c1.as_str());
        line.append("];");
        verify_rust.push(line);
    }
    if count3d > 0 {
        let c3 = u64_to_decimal(count3d);
        let mut line = owned(
            "    let mut tmp_3 = vec![CubicExtensionField { value: [Goldilocks::ZERO, Goldilocks::ZERO, Goldilocks::ZERO] }; ",
        );
        line.append(c3.as_str());
        line.append("];");
        verify_rust.push(line);
    }
    let ghost head = strings_view(verify_rust@);
    proof {
        let c1 = slot_count(code, 1);
        let c3 = slot_count(code, 3);
        let h: Seq<Seq<char>> = (if c1 > 0 { seq![tmp1_decl(c1)] } else { Seq::empty() }) + (if c3 > 0 {
            seq![tmp3_decl(c3)]
        } else {
            Seq::empty()
        });
        assert(head =~= h);
    }
    let mut t: usize = 0;
    while t < n
        invariant
            n == code.len(),
            code == code_info_code@,
            t <= n,
            parser_args_ok(*stark_info, code, global, true, gi@),
            id1d@ == slot_map(code, 1),
            id3d@ == slot_map(code, 3),
            strings_view(verify_rust@) == head + verify_lines(code, id1d@, id3d@, *stark_info).subrange(0, t as int),
        decreases n - t,
    {
        let ghost before = verify_rust@;
        assert(operation_ok(code[t as int], true));
        let line = verify_line_exec(&code_info_code[t], id1d, id3d, stark_info);
        verify_rust.push(line);
        proof {
            assert(strings_view(verify_rust@) =~= strings_view(before).push(line@));
            assert(verify_lines(code, id1d@, id3d@, *stark_info).subrange(0, t as int + 1) =~= verify_lines(code, id1d@,
                id3d@, *stark_info).subrange(0, t as int).push(line@));
            assert(strings_view(verify_rust@) =~= head + verify_lines(code, id1d@, id3d@, *stark_info).subrange(0,
                t as int + 1));
        }
        t = t + 1;
    }
    let dest_tmp = code_info_code[n - 1].dest;
    let ghost body = strings_view(verify_rust@);
    if dest_tmp.dim == 1 {
        let mut s2 = bracketed_i64("    return tmp_1[", id1d[dest_tmp.id as usize]);
        s2.append(";");
        verify_rust.push(s2);
        proof {
            reveal_strlit("    return tmp_1[");
            reveal_strlit("    return ");
            reveal_strlit("tmp_1[");
            assert(s2@ =~= "    return "@ + bracketed("tmp_1["@, signed_decimal(id1d@[dest_tmp.id as int] as int)) + ";"@);
            assert(strings_view(verify_rust@) =~= body.push(s2@));
        }
    } else if dest_tmp.dim == FIELD_EXTENSION {
        let mut s2 = bracketed_i64("    return tmp_3[", id3d[dest_tmp.id as usize]);
        s2.append(";");
        verify_rust.push(s2);
        proof {
            reveal_strlit("    return tmp_3[");
            reveal_strlit("    return ");
            reveal_strlit("tmp_3[");
            assert(s2@ =~= "    return "@ + bracketed("tmp_3["@, signed_decimal(id3d@[dest_tmp.id as int] as int)) + ";"@);
            assert(strings_view(verify_rust@) =~= body.push(s2@));
        }
    } else {
        return Err(SetupError::UnknownDestinationDimension);
    }
    proof {
        assert(verify_lines(code, id1d@, id3d@, *stark_info).subrange(0, n as int) =~= verify_lines(code, id1d@,
            id3d@, *stark_info));
        assert(strings_view(verify_rust@) =~= verify_body(code, *stark_info));
    }
    Ok(verify_rust)
}

/// Converts code blocks into the flat operation/argument arrays of the
/// binary format (and, when `verify`, into the verifier's Rust lines).
#[verifier::rlimit(50)]
pub fn get_parser_args(
    stark_info: &StarkInfo,
    code_info_code: &[CodeOperation],
    numbers: &mut Vec<String>,
    global: bool,
    verify: bool,
    global_info: Option<&GlobalInfo>,
) -> (res: Result<ParserArgsResult, SetupError>)
    requires
        parser_args_ok(*stark_info, code_info_code@, global, verify, match global_info { Some(g) => Some(*g), None => None }),
    ensures
        ({
            let code = code_info_code@;
            let gi = match global_info { Some(g) => Some(*g), None => None };
            let buffer = 1 + stark_info.n_stages + 3 + if global { 0 } else { stark_info.custom_commits@.len() };
            let (enc, nb) = encode_code(*stark_info, code, code.len() as int, verify, buffer, slot_map(code, 1),
                slot_map(code, 3), strings_view(old(numbers)@), global, gi);
            let dest = code.last().dest;
            &&& strings_view(final(numbers)@) == nb
            &&& match res {
                Ok(p) => {
                    &&& enc is Ok
                    &&& p.exps_info.ops@ == enc.unwrap().0
                    &&& p.exps_info.args@ == enc.unwrap().1
                    &&& p.exps_info.n_temp1 == slot_count(code, 1)
                    &&& p.exps_info.n_temp3 == slot_count(code, 3)
                    &&& (dest.dim == 1 || dest.dim == 3)
                    &&& p.exps_info.dest_dim == dest.dim
                    &&& p.exps_info.dest_id == (if dest.dim == 1 { slot_map(code, 1)[dest.id as int] } else {
                        slot_map(code, 3)[dest.id as int] }) as u64
                    &&& p.exps_info.exp_id == 0 && p.exps_info.stage == 0 && p.exps_info.line@.len() == 0
                    &&& p.exps_info.first_row == 0 && p.exps_info.last_row == 0 && p.exps_info.im_pol == 0
                    &&& strings_view(p.verify_rust@) == if verify { verify_body(code, *stark_info) } else { Seq::empty() }
                },
                Err(e) => match enc {
                    Err(e2) => e == e2,
                    Ok(_) => e == SetupError::UnknownDestinationDimension && dest.dim != 1 && dest.dim != 3,
                },
            }
        }),
{
    let ghost code = code_info_code@;
    let ghost gi = match global_info { Some(g) => Some(*g), None => None };
    let ghost nums0 = strings_view(numbers@);
    let cc_len: usize = if !global { stark_info.custom_commits.len() } else { 0 };
    let ghost buffer = 1 + stark_info.n_stages + 3 + cc_len;
    let mut ops: Vec<u64> = Vec::new();
    let mut args: Vec<u64> = Vec::new();
    let maxid = MAX_TMP_ID;
    let mut id1d: Vec<i64> = vec![-1i64; maxid];
    let mut id3d: Vec<i64> = vec![-1i64; maxid];
    proof {
        assert(id1d@ =~= Seq::new(MAX_TMP_ID as nat, |i: int| -1i64));
        assert(id3d@ =~= Seq::new(MAX_TMP_ID as nat, |i: int| -1i64));
    }
    let (count1d, count3d) = get_id_maps(maxid, &mut id1d, &mut id3d, code_info_code);
    proof {
        let init = Seq::new(MAX_TMP_ID as nat, |i: int| -1i64);
        lemma_lifetimes_len(code, 1, MAX_TMP_ID as int);
        lemma_lifetimes_len(code, 3, MAX_TMP_ID as int);
        lemma_temporals_len(lifetimes(code, 1, MAX_TMP_ID as int));
        lemma_temporals_len(lifetimes(code, 3, MAX_TMP_ID as int));
        lemma_assign_slots(init, temporals(lifetimes(code, 1, MAX_TMP_ID as int)), 0);
        lemma_assign_slots(init, temporals(lifetimes(code, 3, MAX_TMP_ID as int)), 0);
    }
    let n = code_info_code.len();
    let mut j: usize = 0;
    while j < n
        invariant
            n == code.len(),
            code == code_info_code@,
            j <= n,
            parser_args_ok(*stark_info, code, global, verify, gi),
            gi == match global_info { Some(g) => Some(*g), None => None },
            cc_len == if global { 0 } else { stark_info.custom_commits@.len() },
            buffer == 1 + stark_info.n_stages + 3 + cc_len,
            id1d@ == slot_map(code, 1),
            id3d@ == slot_map(code, 3),
            id1d@.len() == MAX_TMP_ID,
            id3d@.len() == MAX_TMP_ID,
            nums0 == strings_view(old(numbers)@),
            encode_code(*stark_info, code, j as int, verify, buffer, id1d@, id3d@, nums0, global, gi).0
                == Ok::<(Seq<u64>, Seq<u64>), SetupError>((ops@, args@)),
            encode_code(*stark_info, code, j as int, verify, buffer, id1d@, id3d@, nums0, global, gi).1
                == strings_view(numbers@),
        decreases n - j,
    {
        let ghost args_j = args@;
        let e = encode_one(&mut args, &code_info_code[j], stark_info, cc_len, &id1d, &id3d, numbers, global, verify,
            global_info, Ghost(code), Ghost(j as int));
        match e {
            Ok(idx) => {
                ops.push(idx);
                proof {
                    assert(args@ =~= args_j + encode_op(*stark_info, code[j as int], verify, buffer, id1d@, id3d@,
                        encode_code(*stark_info, code, j as int, verify, buffer, id1d@, id3d@, nums0, global, gi).1,
                        global, gi).0.unwrap().1);
                }
            },
            Err(er) => {
                proof {
                    assert(encode_code(*stark_info, code, j as int + 1, verify, buffer, id1d@, id3d@, nums0, global, gi)
                        == (Err::<(Seq<u64>, Seq<u64>), SetupError>(er), strings_view(numbers@)));
                    lemma_encode_code_err(*stark_info, code, j as int + 1, n as int, verify, buffer, id1d@, id3d@, nums0,
                        global, gi);
                }
                return Err(er);
            },
        }
        j = j + 1;
    }
    proof {
        lemma_encoded_dests_tmp(*stark_info, code, n as int, verify, buffer, id1d@, id3d@, nums0, global, gi, n - 1);
    }
    let dest_tmp = code_info_code[n - 1].dest;
    assert(dest_tmp.id < MAX_TMP_ID);
    let verify_rust: Vec<String> = if verify {
        match verify_rust_lines(code_info_code, &id1d, &id3d, count1d, count3d, stark_info, global, Ghost(gi)) {
            Ok(v) => v,
            Err(e) => { return Err(e); },
        }
    } else {
        Vec::new()
    };
    let (dest_dim, dest_id): (u64, u64) = if dest_tmp.dim == 1 {
        (1, id1d[dest_tmp.id as usize] as u64)
    } else if dest_tmp.dim == FIELD_EXTENSION {
        (FIELD_EXTENSION, id3d[dest_tmp.id as usize] as u64)
    } else {
        return Err(SetupError::UnknownDestinationDimension);
    };
    Ok(ParserArgsResult {
        exps_info: ExpsInfo {
            n_temp1: count1d,
            n_temp3: count3d,
            ops,
            args,
            dest_dim,
            dest_id,
            exp_id: 0,
            stage: 0,
            line: String::new(),
            first_row: 0,
            last_row: 0,
            im_pol: 0,
        },
        verify_rust,
    })
}

/// An error in the first `k` sources is the error of all of them.
proof fn lemma_encode_srcs_err(
    si: StarkInfo,
    srcs: Seq<CodeType>,
    k: int,
    m: int,
    buffer: int,
    id1d: Seq<i64>,
    id3d: Seq<i64>,
    numbers: Seq<Seq<char>>,
    global: bool,
    gi: Option<GlobalInfo>,
)
    requires
        0 <= k <= m,
        encode_srcs(si, srcs, k, buffer, id1d, id3d, numbers, global, gi).0 is Err,
    ensures
        encode_srcs(si, srcs, m, buffer, id1d, id3d, numbers, global, gi) == encode_srcs(si, srcs, k, buffer, id1d, id3d,
            numbers, global, gi),
    decreases m - k,
{
    if k < m {
        lemma_encode_srcs_err(si, srcs, k, m - 1, buffer, id1d, id3d, numbers, global, gi);
    }
}

/// An error in the first `k` operations is the error of the whole code.
proof fn lemma_encode_code_err(
    si: StarkInfo,
    code: Seq<CodeOperation>,
    k: int,
    m: int,
    verify: bool,
    buffer: int,
    id1d: Seq<i64>,
    id3d: Seq<i64>,
    numbers: Seq<Seq<char>>,
    global: bool,
    gi: Option<GlobalInfo>,
)
    requires
        0 <= k <= m,
        encode_code(si, code, k, verify, buffer, id1d, id3d, numbers, global, gi).0 is Err,
    ensures
        encode_code(si, code, m, verify, buffer, id1d, id3d, numbers, global, gi) == encode_code(si, code, k, verify,
            buffer, id1d, id3d, numbers, global, gi),
    decreases m - k,
{
    if k < m {
        lemma_encode_code_err(si, code, k, m - 1, verify, buffer, id1d, id3d, numbers, global, gi);
    }
}

/// The verifier line of one operation.
fn verify_line_exec(c: &CodeOperation, id1d: &Vec<i64>, id3d: &Vec<i64>, stark_info: &StarkInfo) -> (s: String)
    requires
        c.op == CodeOp::Copy ==> c.src@.len() >= 1,
        c.op != CodeOp::Copy ==> c.src@.len() >= 2,
        verify_operand_ok(c.dest, id1d@, id3d@, *stark_info),
        forall|k: int| 0 <= k < c.src@.len() ==> verify_operand_ok(#[trigger] c.src@[k], id1d@, id3d@, *stark_info),
    ensures
        s@ == verify_line(*c, id1d@, id3d@, *stark_info),
{
    let d = get_operation_verify(&c.dest, id1d, id3d, stark_info);
    let mut s = owned("    ");
    s.append(d.as_str());
    s.append(" = ");
    if matches!(c.op, CodeOp::Copy) {
        let a = get_operation_verify(&c.src[0], id1d, id3d, stark_info);
        s.append(a.as_str());
        s.append(";");
        return s;
    }
    let swapped = c.src[0].dim == 1 && c.src[1].dim == FIELD_EXTENSION;
    let a = if swapped {
        get_operation_verify(&c.src[1], id1d, id3d, stark_info)
    } else {
        get_operation_verify(&c.src[0], id1d, id3d, stark_info)
    };
    let b = if swapped {
        get_operation_verify(&c.src[0], id1d, id3d, stark_info)
    } else {
        get_operation_verify(&c.src[1], id1d, id3d, stark_info)
    };
    s.append(a.as_str());
    match c.op {
        CodeOp::Mul => {
            s.append(" * ");
            s.append(b.as_str());
            s.append(";");
        },
        CodeOp::Add => {
            s.append(" + ");
            s.append(b.as_str());
            s.append(";");
        },
        _ => {
            if swapped {
                s.append(".sub_from_scalar(");
                s.append(b.as_str());
                s.append(");");
            } else {
                s.append(" - ");
                s.append(b.as_str());
                s.append(";");
            }
        },
    }
    s
}
} // verus!
