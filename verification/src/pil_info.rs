//! Sizes of the prover's Merkle trees.
use vstd::prelude::*;
use vstd::arithmetic::power2::pow2;
use crate::pilout_info::CustomCommitInfo;
use crate::stark_info::{StarkStruct, StepStruct};
use crate::text::{concat, decimal, u64_to_decimal};
use crate::verifier_rs_gen::{section_count, section_count_exec};

verus! {

/// Hashing a level of at least two nodes leaves fewer nodes.
pub proof fn lemma_next_level_smaller(level: nat, arity: nat)
    requires
        level >= 2,
        arity >= 2,
    ensures
        (level + arity - 1) / (arity as int) < level,
{
    assert((level + arity - 1) < arity * level) by (nonlinear_arith)
        requires
            level >= 2,
            arity >= 2,
    ;
    assert((level + arity - 1) / (arity as int) < level) by (nonlinear_arith)
        requires
            (level + arity - 1) < arity * level,
            arity >= 2,
    ;
}

/// The nodes a Merkle tree of `arity` adds above a level of `level` nodes:
/// each level is padded with zeros to a multiple of the arity and hashed
/// into the next, up to the root.
pub open spec fn nodes_above(level: nat, arity: nat) -> nat
    decreases level,
{
    if level <= 1 || arity < 2 {
        0
    } else {
        let next = ((level + arity - 1) / (arity as int)) as nat;
        proof {
            lemma_next_level_smaller(level, arity);
        }
        (((arity as int) - (level as int) % (arity as int)) % (arity as int)) as nat + next + nodes_above(next, arity)
    }
}

/// Field elements of a Merkle tree over `height` leaves (four per node).
pub open spec fn num_nodes_mt(height: nat, arity: nat) -> nat {
    (height + nodes_above(height, arity)) * 4
}

/// The number of field elements a Merkle tree of `merkle_tree_arity` over
/// `height` leaves stores.
pub fn get_num_nodes_mt(height: u64, merkle_tree_arity: usize) -> (r: u64)
    requires
        merkle_tree_arity >= 2,
        merkle_tree_arity <= u64::MAX,
        height + merkle_tree_arity <= u64::MAX,
        num_nodes_mt(height as nat, merkle_tree_arity as nat) <= u64::MAX,
    ensures
        r == num_nodes_mt(height as nat, merkle_tree_arity as nat),
{
    let arity = merkle_tree_arity as u64;
    let mut num_nodes = height;
    let mut nodes_level = height;
    while nodes_level > 1
        invariant
            arity == merkle_tree_arity,
            arity >= 2,
            nodes_level <= height,
            height + arity <= u64::MAX,
            num_nodes + nodes_above(nodes_level as nat, arity as nat) == height + nodes_above(height as nat, arity as nat),
            (height + nodes_above(height as nat, arity as nat)) * 4 <= u64::MAX,
        decreases nodes_level,
    {
        proof {
            lemma_next_level_smaller(nodes_level as nat, arity as nat);
        }
        let extra_zeros = (arity - (nodes_level % arity)) % arity;
        num_nodes = num_nodes + extra_zeros;
        let next_n = (nodes_level + (arity - 1)) / arity;
        num_nodes = num_nodes + next_n;
        nodes_level = next_n;
    }
    num_nodes * 4
}

/// The number of node slots (of four field elements each) of a Merkle tree
/// of `arity` over `height` leaves: the leaves, then each level padded with
/// zeros to a multiple of the arity and hashed into the next, up to the root.
pub fn compute_num_nodes(height: u64, arity: u64) -> (r: u64)
    requires
        arity >= 2,
        height + nodes_above(height as nat, arity as nat) <= u64::MAX,
    ensures
        r == height + nodes_above(height as nat, arity as nat),
{
    let mut num_nodes = height;
    let mut nodes_level = height;
    while nodes_level > 1
        invariant
            arity >= 2,
            nodes_level <= height,
            num_nodes + nodes_above(nodes_level as nat, arity as nat) == height + nodes_above(height as nat, arity as nat),
            height + nodes_above(height as nat, arity as nat) <= u64::MAX,
        decreases nodes_level,
    {
        proof {
            lemma_next_level_smaller(nodes_level as nat, arity as nat);
        }
        let extra_zeros = (arity - (nodes_level % arity)) % arity;
        num_nodes = num_nodes + extra_zeros;
        proof {
            assert(nodes_level / arity < nodes_level) by (nonlinear_arith)
                requires
                    arity >= 2,
                    nodes_level > 1,
            ;
        }
        let next_n = nodes_level / arity + if nodes_level % arity == 0 { 0 } else { 1 };
        proof {
            assert(next_n == (nodes_level + arity - 1) / (arity as int)) by {
                vstd::arithmetic::div_mod::lemma_fundamental_div_mod(nodes_level as int, arity as int);
                let q = nodes_level as int / arity as int;
                let m = nodes_level as int % arity as int;
                assert((q + 1) * (arity as int) == q * (arity as int) + arity) by (nonlinear_arith);
                assert((arity as int) * q == q * (arity as int)) by (nonlinear_arith);
                assert(next_n as int * arity as int == if m == 0 { q * arity } else { q * arity + arity }) by (nonlinear_arith)
                    requires
                        next_n == q + if m == 0 { 0int } else { 1int },
                        (q + 1) * (arity as int) == q * (arity as int) + arity,
                ;
                vstd::arithmetic::div_mod::lemma_fundamental_div_mod_converse(
                    nodes_level + arity - 1,
                    arity as int,
                    next_n as int,
                    (if nodes_level % arity == 0 { arity - 1 } else { nodes_level % arity - 1 }) as int,
                );
            }
        }
        num_nodes = num_nodes + next_n;
        nodes_level = next_n;
    }
    num_nodes
}

/// The columns of committed stage `i`.
pub open spec fn stage_cols(m: Seq<(String, u64)>, i: int) -> int {
    section_count(m, "cm"@ + decimal(i as nat), 0) as int
}

/// Memory of the first `k` custom commits: both domains of a commit's
/// first stage and its tree.
pub open spec fn custom_mem(cc: Seq<CustomCommitInfo>, k: int, n: int, ne: int, nodes: int) -> int
    decreases k,
{
    if k <= 0 {
        0
    } else {
        let w = cc[k - 1].stage_widths@;
        custom_mem(cc, k - 1, n, ne, nodes) + if w.len() > 0 && w[0] > 0 { w[0] * (n + ne) + nodes } else { 0 }
    }
}

/// Memory of stages `1..=k` on the extended domain, with their trees.
pub open spec fn stage_mem(m: Seq<(String, u64)>, k: int, ne: int, nodes: int) -> int
    decreases k,
{
    if k <= 0 { 0 } else { stage_mem(m, k - 1, ne, nodes) + stage_cols(m, k) * ne + nodes }
}

/// Memory of the traces of stages `1..=k`.
pub open spec fn trace_mem(m: Seq<(String, u64)>, k: int, n: int) -> int
    decreases k,
{
    if k <= 0 { 0 } else { trace_mem(m, k - 1, n) + stage_cols(m, k) * n }
}

/// Memory of FRI step `i`: the folded polynomial and its tree (nothing for
/// a step beyond 64 bits).
pub open spec fn fri_step_mem(steps: Seq<StepStruct>, i: int, arity: nat) -> int {
    let sb = steps[i + 1].n_bits;
    let sa = steps[i].n_bits;
    if sb >= 64 || sa >= 64 {
        0
    } else {
        let h = pow2(sb as nat);
        let w = (pow2(sa as nat) / h) * 3;
        (h * w + num_nodes_mt(h, arity)) as int
    }
}

/// Memory of the first `k` FRI steps.
pub open spec fn fri_mem(steps: Seq<StepStruct>, k: int, arity: nat) -> int
    decreases k,
{
    if k <= 0 { 0 } else { fri_mem(steps, k - 1, arity) + fri_step_mem(steps, k - 1, arity) }
}

/// The prover's memory in field elements: custom commits, constants (with
/// their trace when it is under 512 MiB), the committed stages (or the
/// traces of the stages, when larger), the quotient and evaluation buffers,
/// and the FRI steps.
pub open spec fn prover_memory(
    cc: Seq<CustomCommitInfo>,
    n_constants: int,
    n_stages: int,
    m: Seq<(String, u64)>,
    ss: StarkStruct,
    n_boundaries: int,
) -> int {
    let ne = pow2(ss.n_bits_ext as nat) as int;
    let n = pow2(ss.n_bits as nat) as int;
    let a = ss.merkle_tree_arity as nat;
    let nodes = num_nodes_mt(ne as nat, a) as int;
    let pm1 = custom_mem(cc, cc.len() as int, n, ne, nodes) + 2 + ne * n_constants + nodes;
    let pm2 = pm1 + if (n_constants * n * 8) / 1048576 < 512 { n * n_constants } else { 0int };
    let pm3 = pm2 + stage_mem(m, n_stages + 1, ne, nodes);
    let off = (if n_stages + 1 >= 2 { pm2 + stage_mem(m, 1, ne, nodes) } else { 0 }) + trace_mem(m, n_stages, n);
    let pm4 = if off > pm3 { off } else { pm3 };
    let k = if ss.steps@.len() > 1 { ss.steps@.len() - 1 } else { 0 };
    pm4 + (6 + n_boundaries) * ne + fri_mem(ss.steps@, k as int, a)
}

proof fn lemma_custom_mem_mono(cc: Seq<CustomCommitInfo>, k: int, j: int, n: int, ne: int, nodes: int)
    requires
        0 <= k <= j,
        0 <= n && 0 <= ne && 0 <= nodes,
    ensures
        0 <= custom_mem(cc, k, n, ne, nodes) <= custom_mem(cc, j, n, ne, nodes),
    decreases j,
{
    if j > 0 {
        let w = cc[j - 1].stage_widths@;
        if w.len() > 0 && w[0] > 0 {
            assert(w[0] * (n + ne) >= 0) by (nonlinear_arith)
                requires
                    w[0] > 0,
                    n + ne >= 0,
            ;
        }
        if k < j {
            lemma_custom_mem_mono(cc, k, j - 1, n, ne, nodes);
        } else {
            lemma_custom_mem_mono(cc, 0, j - 1, n, ne, nodes);
        }
    }
}

proof fn lemma_stage_mem_mono(m: Seq<(String, u64)>, k: int, j: int, ne: int, nodes: int)
    requires
        0 <= k <= j,
        0 <= ne && 0 <= nodes,
    ensures
        0 <= stage_mem(m, k, ne, nodes) <= stage_mem(m, j, ne, nodes),
    decreases j,
{
    if j > 0 {
        assert(stage_cols(m, j) * ne >= 0) by (nonlinear_arith)
            requires
                stage_cols(m, j) >= 0,
                ne >= 0,
        ;
        if k < j {
            lemma_stage_mem_mono(m, k, j - 1, ne, nodes);
        } else {
            lemma_stage_mem_mono(m, 0, j - 1, ne, nodes);
        }
    }
}

proof fn lemma_trace_mem_mono(m: Seq<(String, u64)>, k: int, j: int, n: int)
    requires
        0 <= k <= j,
        0 <= n,
    ensures
        0 <= trace_mem(m, k, n) <= trace_mem(m, j, n),
    decreases j,
{
    if j > 0 {
        assert(stage_cols(m, j) * n >= 0) by (nonlinear_arith)
            requires
                stage_cols(m, j) >= 0,
                n >= 0,
        ;
        if k < j {
            lemma_trace_mem_mono(m, k, j - 1, n);
        } else {
            lemma_trace_mem_mono(m, 0, j - 1, n);
        }
    }
}

proof fn lemma_fri_mem_mono(steps: Seq<StepStruct>, k: int, j: int, a: nat)
    requires
        0 <= k <= j,
    ensures
        0 <= fri_mem(steps, k, a) <= fri_mem(steps, j, a),
    decreases j,
{
    if j > 0 {
        lemma_fri_step_nonneg(steps, j - 1, a);
        if k < j {
            lemma_fri_mem_mono(steps, k, j - 1, a);
        } else {
            lemma_fri_mem_mono(steps, 0, j - 1, a);
        }
    }
}

proof fn lemma_fri_step_nonneg(steps: Seq<StepStruct>, i: int, a: nat)
    ensures
        fri_step_mem(steps, i, a) >= 0,
{
    let sb = steps[i + 1].n_bits;
    let sa = steps[i].n_bits;
    if !(sb >= 64 || sa >= 64) {
        let h = pow2(sb as nat);
        let w = (pow2(sa as nat) / h) * 3;
        assert(h * w >= 0) by (nonlinear_arith)
            requires
                h >= 0,
                w >= 0,
        ;
    }
}

/// What computing the prover's memory needs to stay within 64 bits: trees
/// that can be built over the domains and the FRI steps, and totals that
/// fit.
pub open spec fn memory_fits(
    cc: Seq<CustomCommitInfo>,
    n_constants: int,
    n_stages: int,
    m: Seq<(String, u64)>,
    ss: StarkStruct,
    n_boundaries: int,
) -> bool {
    let a = ss.merkle_tree_arity as int;
    let ne = pow2(ss.n_bits_ext as nat) as int;
    let n = pow2(ss.n_bits as nat) as int;
    &&& 2 <= a <= usize::MAX
    &&& ne + a <= u64::MAX
    &&& num_nodes_mt(ne as nat, a as nat) <= u64::MAX
    &&& n_constants * n * 8 <= u64::MAX
    &&& n_stages + 2 <= u64::MAX
    &&& forall|i: int|
        0 <= i < ss.steps@.len() - 1 && (#[trigger] ss.steps@[i + 1]).n_bits < 64 ==> pow2(ss.steps@[i + 1].n_bits as nat) + a
            <= u64::MAX && num_nodes_mt(pow2(ss.steps@[i + 1].n_bits as nat), a as nat) <= u64::MAX
    &&& prover_memory(cc, n_constants, n_stages, m, ss, n_boundaries) <= u64::MAX
}

/// The prover's memory in field elements, or `None` when a domain is
/// beyond 64 bits.
pub fn prover_memory_words(
    custom_commits: &Vec<CustomCommitInfo>,
    n_constants: u64,
    n_stages: u64,
    map_sections_n: &Vec<(String, u64)>,
    stark_struct: &StarkStruct,
    n_boundaries: u64,
) -> (r: Option<u64>)
    requires
        stark_struct.n_bits < 64 && stark_struct.n_bits_ext < 64 ==> memory_fits(
            custom_commits@,
            n_constants as int,
            n_stages as int,
            map_sections_n@,
            *stark_struct,
            n_boundaries as int,
        ),
    ensures
        match r {
            Some(v) => stark_struct.n_bits < 64 && stark_struct.n_bits_ext < 64 && v == prover_memory(
                custom_commits@,
                n_constants as int,
                n_stages as int,
                map_sections_n@,
                *stark_struct,
                n_boundaries as int,
            ),
            None => stark_struct.n_bits >= 64 || stark_struct.n_bits_ext >= 64,
        },
{
    let ss = stark_struct;
    if ss.n_bits_ext >= 64 || ss.n_bits >= 64 {
        return None;
    }
    let ghost cc = custom_commits@;
    let ghost m = map_sections_n@;
    let ghost total = prover_memory(cc, n_constants as int, n_stages as int, m, *ss, n_boundaries as int);
    proof {
        vstd::bits::lemma_u64_pow2_no_overflow(ss.n_bits_ext as nat);
        vstd::bits::lemma_u64_shl_is_mul(1, ss.n_bits_ext);
        vstd::bits::lemma_u64_pow2_no_overflow(ss.n_bits as nat);
        vstd::bits::lemma_u64_shl_is_mul(1, ss.n_bits);
    }
    let ne: u64 = 1u64 << ss.n_bits_ext;
    let n: u64 = 1u64 << ss.n_bits;
    let arity = ss.merkle_tree_arity;
    let nodes = get_num_nodes_mt(ne, arity as usize);
    let ghost pm1 = custom_mem(cc, cc.len() as int, n as int, ne as int, nodes as int) + 2 + ne * n_constants + nodes;
    let ghost big = (n_constants * n * 8) / 1048576 < 512;
    let ghost pm2 = pm1 + if big { n * n_constants } else { 0int };
    let ghost sm = stage_mem(m, n_stages + 1, ne as int, nodes as int);
    let ghost pm3 = pm2 + sm;
    let ghost off0 = if n_stages + 1 >= 2 { pm2 + stage_mem(m, 1, ne as int, nodes as int) } else { 0 };
    let ghost off = off0 + trace_mem(m, n_stages as int, n as int);
    let ghost pm4 = if off > pm3 { off } else { pm3 };
    let ghost ksteps: int = if ss.steps@.len() > 1 { ss.steps@.len() - 1 } else { 0 };
    proof {
        lemma_custom_mem_mono(cc, 0, cc.len() as int, n as int, ne as int, nodes as int);
        lemma_stage_mem_mono(m, 0, n_stages + 1, ne as int, nodes as int);
        lemma_stage_mem_mono(m, 1, n_stages + 1, ne as int, nodes as int);
        lemma_trace_mem_mono(m, 0, n_stages as int, n as int);
        lemma_fri_mem_mono(ss.steps@, 0, ksteps, arity as nat);
        assert(ne * n_constants >= 0) by (nonlinear_arith)
            requires
                ne >= 0,
                n_constants >= 0,
        ;
        assert(n * n_constants >= 0) by (nonlinear_arith)
            requires
                n >= 0,
                n_constants >= 0,
        ;
        assert((6 + n_boundaries) * ne >= 0) by (nonlinear_arith)
            requires
                ne >= 0,
                n_boundaries >= 0,
        ;
        assert(total == pm4 + (6 + n_boundaries) * ne + fri_mem(ss.steps@, ksteps, arity as nat));
        assert(pm1 <= total);
    }
    let mut pm: u64 = 0;
    let mut k: usize = 0;
    while k < custom_commits.len()
        invariant
            k <= cc.len(),
            cc == custom_commits@,
            pm == custom_mem(cc, k as int, n as int, ne as int, nodes as int),
            custom_mem(cc, cc.len() as int, n as int, ne as int, nodes as int) <= u64::MAX,
            n >= 1,
            ne >= 1,
            nodes >= 0,
        decreases custom_commits.len() - k,
    {
        proof {
            lemma_custom_mem_mono(cc, k as int + 1, cc.len() as int, n as int, ne as int, nodes as int);
            lemma_custom_mem_mono(cc, k as int, k as int + 1, n as int, ne as int, nodes as int);
        }
        let w = &custom_commits[k].stage_widths;
        if w.len() > 0 && w[0] > 0 {
            let w0 = w[0] as u64;
            proof {
                assert(w0 == cc[k as int].stage_widths@[0]);
                assert(custom_mem(cc, k as int + 1, n as int, ne as int, nodes as int) == pm + w0 * (n + ne) + nodes);
                assert(n + ne <= w0 * (n + ne)) by (nonlinear_arith)
                    requires
                        n >= 1,
                        w0 >= 1,
                ;
            }
            pm = pm + w0 * (n + ne) + nodes;
        }
        k = k + 1;
    }
    proof {
        assert(ne * n_constants <= pm1);
    }
    pm = pm + 2 + ne * n_constants + nodes;
    if (n_constants * n * 8) / (1024 * 1024) < 512 {
        pm = pm + n * n_constants;
    }
    assert(pm == pm2);
    let mut offset: u64 = 0;
    let mut i: u64 = 1;
    while i <= n_stages + 1
        invariant
            1 <= i <= n_stages + 2,
            n_stages + 2 <= u64::MAX,
            m == map_sections_n@,
            pm == pm2 + stage_mem(m, i - 1, ne as int, nodes as int),
            offset == if i > 2 { pm2 + stage_mem(m, 1, ne as int, nodes as int) } else { 0 },
            pm2 + stage_mem(m, n_stages + 1, ne as int, nodes as int) <= u64::MAX,
            ne >= 1,
            nodes >= 0,
            n_stages + 1 >= 2 ==> off0 == pm2 + stage_mem(m, 1, ne as int, nodes as int),
            n_stages + 1 < 2 ==> off0 == 0,
        decreases n_stages + 2 - i,
    {
        if i == 2 {
            offset = pm;
        }
        let key = concat("cm", u64_to_decimal(i).as_str());
        let cols = section_count_exec(map_sections_n, key.as_str());
        proof {
            lemma_stage_mem_mono(m, i as int, n_stages + 1, ne as int, nodes as int);
            assert(cols * ne <= cols * ne + nodes);
            assert(cols <= cols * ne) by (nonlinear_arith)
                requires
                    ne >= 1,
                    cols >= 0,
            ;
        }
        pm = pm + cols * ne + nodes;
        i = i + 1;
    }
    assert(offset == off0);
    assert(pm == pm3);
    let mut j: u64 = 1;
    while j <= n_stages
        invariant
            1 <= j <= n_stages + 1,
            n_stages + 1 <= u64::MAX,
            m == map_sections_n@,
            offset == off0 + trace_mem(m, j - 1, n as int),
            off0 + trace_mem(m, n_stages as int, n as int) <= u64::MAX,
            n >= 1,
        decreases n_stages + 1 - j,
    {
        let key = concat("cm", u64_to_decimal(j).as_str());
        let cols = section_count_exec(map_sections_n, key.as_str());
        proof {
            lemma_trace_mem_mono(m, j as int, n_stages as int, n as int);
            assert(cols <= cols * n) by (nonlinear_arith)
                requires
                    n >= 1,
                    cols >= 0,
            ;
        }
        offset = offset + cols * n;
        j = j + 1;
    }
    if offset > pm {
        pm = offset;
    }
    assert(pm == pm4);
    proof {
        assert(6 + n_boundaries <= (6 + n_boundaries) * ne) by (nonlinear_arith)
            requires
                ne >= 1,
                n_boundaries >= 0,
        ;
    }
    pm = pm + (3 + 3 + n_boundaries) * ne;
    let ghost pm5 = pm;
    if ss.steps.len() > 1 {
        let last = ss.steps.len() - 1;
        let mut t: usize = 0;
        while t < last
            invariant
                last == ss.steps@.len() - 1,
                last == ksteps,
                t <= last,
                pm == pm5 + fri_mem(ss.steps@, t as int, arity as nat),
                pm5 + fri_mem(ss.steps@, ksteps, arity as nat) <= u64::MAX,
                2 <= arity <= usize::MAX,
                forall|q: int|
                    0 <= q < ss.steps@.len() - 1 && (#[trigger] ss.steps@[q + 1]).n_bits < 64 ==> pow2(
                        ss.steps@[q + 1].n_bits as nat,
                    ) + arity <= u64::MAX && num_nodes_mt(pow2(ss.steps@[q + 1].n_bits as nat), arity as nat)
                        <= u64::MAX,
            decreases last - t,
        {
            let sb = ss.steps[t + 1].n_bits;
            let sa = ss.steps[t].n_bits;
            proof {
                lemma_fri_mem_mono(ss.steps@, t as int + 1, ksteps, arity as nat);
                lemma_fri_step_nonneg(ss.steps@, t as int, arity as nat);
            }
            if sb < 64 && sa < 64 {
                proof {
                    vstd::bits::lemma_u64_pow2_no_overflow(sb as nat);
                    vstd::bits::lemma_u64_shl_is_mul(1, sb);
                    vstd::bits::lemma_u64_pow2_no_overflow(sa as nat);
                    vstd::bits::lemma_u64_shl_is_mul(1, sa);
                    assert(ss.steps@[t as int + 1].n_bits < 64);
                }
                let height: u64 = 1u64 << sb;
                let q: u64 = (1u64 << sa) / height;
                proof {
                    let hw = height * (q * 3);
                    assert(q * 3 <= hw) by (nonlinear_arith)
                        requires
                            height >= 1,
                            q >= 0,
                            hw == height * (q * 3),
                    ;
                }
                let width: u64 = q * 3;
                let tree = get_num_nodes_mt(height, arity as usize);
                pm = pm + height * width + tree;
            }
            t = t + 1;
        }
    }
    Some(pm)
}

} // verus!
