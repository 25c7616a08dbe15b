//! The contents of the expression binaries the prover reads: every
//! constraint and expression encoded as operations and arguments, with the
//! rows it applies to, the shared tables of numbers, and the largest sizes.
use vstd::prelude::*;
use vstd::arithmetic::power2::pow2;
use crate::error::SetupError;
use crate::parser_args::{encode_code, get_parser_args, parser_args_ok, slot_count, slot_map, strings_view, ExpsInfo};
use crate::stark_info::{
    CodeOperation, CodeType, ExpCode, ExpressionsInfo, Hint, HintField, HintFieldValue, OpType, StarkInfo, VerifierInfo,
};
use crate::text::{parse_u64, parse_u64_exec, str_is};
use crate::bin_file_writer::{le_bytes, le_bytes_exec, lemma_le_bytes_len, BinFileWriter};
use vstd::string::*;
use vstd::utf8::encode_utf8;

verus! {

/// Model of an encoded block.
pub ghost struct InfoView {
    pub n_temp1: int,
    pub n_temp3: int,
    pub ops: Seq<u64>,
    pub args: Seq<u64>,
    pub dest_dim: int,
    pub dest_id: int,
    pub exp_id: int,
    pub stage: int,
    pub line: Seq<char>,
    pub first_row: int,
    pub last_row: int,
    pub im_pol: int,
}

/// The model of an encoded block.
pub open spec fn info_view(p: ExpsInfo) -> InfoView {
    InfoView {
        n_temp1: p.n_temp1 as int,
        n_temp3: p.n_temp3 as int,
        ops: p.ops@,
        args: p.args@,
        dest_dim: p.dest_dim as int,
        dest_id: p.dest_id as int,
        exp_id: p.exp_id as int,
        stage: p.stage as int,
        line: p.line@,
        first_row: p.first_row as int,
        last_row: p.last_row as int,
        im_pol: p.im_pol as int,
    }
}

/// The models of a list of encoded blocks.
pub open spec fn infos_view(v: Seq<ExpsInfo>) -> Seq<InfoView> {
    v.map_values(|p: ExpsInfo| info_view(p))
}

/// The encoding of a block of code of an AIR, after a table of numbers.
pub open spec fn block_encoding(si: StarkInfo, code: Seq<CodeOperation>, numbers: Seq<Seq<char>>, verify: bool) -> (
    Result<(Seq<u64>, Seq<u64>), SetupError>,
    Seq<Seq<char>>,
) {
    encode_code(si, code, code.len() as int, verify, 1 + si.n_stages + 3 + si.custom_commits@.len(), slot_map(code, 1),
        slot_map(code, 3), numbers, false, None)
}

/// The encoded block, with no expression, stage, line or rows yet, or the
/// error its encoding meets.
pub open spec fn block_info(si: StarkInfo, code: Seq<CodeOperation>, numbers: Seq<Seq<char>>, verify: bool) -> Result<
    InfoView,
    SetupError,
> {
    let dest = code.last().dest;
    match block_encoding(si, code, numbers, verify).0 {
        Err(e) => Err(e),
        Ok((ops, args)) => if dest.dim == 1 || dest.dim == 3 {
            Ok(
                InfoView {
                    n_temp1: slot_count(code, 1) as int,
                    n_temp3: slot_count(code, 3) as int,
                    ops,
                    args,
                    dest_dim: dest.dim as int,
                    dest_id: (if dest.dim == 1 { slot_map(code, 1)[dest.id as int] } else { slot_map(code, 3)[dest.id as int] })
                        as u64 as int,
                    exp_id: 0,
                    stage: 0,
                    line: Seq::empty(),
                    first_row: 0,
                    last_row: 0,
                    im_pol: 0,
                },
            )
        } else {
            Err(SetupError::UnknownDestinationDimension)
        },
    }
}

/// Encodes one block of code, extending the table of numbers.
fn encode_block(si: &StarkInfo, code: &[CodeOperation], numbers: &mut Vec<String>, verify: bool) -> (r: Result<
    ExpsInfo,
    SetupError,
>)
    requires
        parser_args_ok(*si, code@, false, verify, None),
    ensures
        strings_view(final(numbers)@) == block_encoding(*si, code@, strings_view(old(numbers)@), verify).1,
        match r {
            Ok(p) => block_info(*si, code@, strings_view(old(numbers)@), verify) == Ok::<InfoView, SetupError>(info_view(p)),
            Err(e) => block_info(*si, code@, strings_view(old(numbers)@), verify) == Err::<InfoView, SetupError>(e),
        },
{
    match get_parser_args(si, code, numbers, false, verify, None) {
        Ok(p) => {
            proof {
                assert(p.exps_info.line@ =~= Seq::<char>::empty());
                assert(info_view(p.exps_info) == block_info(*si, code@, strings_view(old(numbers)@), verify).unwrap());
            }
            Ok(p.exps_info)
        },
        Err(e) => Err(e),
    }
}

/// The rows `[first, last)` a constraint on `boundary` applies to, in a
/// trace of `n` rows.
pub open spec fn row_range(boundary: Seq<char>, n: int, offset_min: u64, offset_max: u64) -> Option<(int, int)> {
    if boundary == "everyRow"@ {
        Some((0, n))
    } else if boundary == "firstRow"@ || boundary == "finalProof"@ {
        Some((0, 1))
    } else if boundary == "lastRow"@ {
        Some((n - 1, n))
    } else if boundary == "everyFrame"@ {
        Some((offset_min as int, n - offset_max))
    } else {
        None
    }
}

/// The encodings of the first `k` constraints, with the numbers they share.
pub open spec fn constraints_infos(si: StarkInfo, cs: Seq<ExpCode>, k: int) -> Result<(Seq<InfoView>, Seq<Seq<char>>), SetupError>
    decreases k,
{
    if k <= 0 {
        Ok((Seq::empty(), Seq::empty()))
    } else {
        match constraints_infos(si, cs, k - 1) {
            Err(e) => Err(e),
            Ok((infos, nums)) => {
                let c = cs[k - 1];
                match row_range(c.boundary@, pow2(si.stark_struct.n_bits as nat) as int, c.offset_min, c.offset_max) {
                    None => Err(SetupError::InvalidBoundary),
                    Some((f, l)) => match block_info(si, c.code@, nums, false) {
                        Err(e) => Err(e),
                        Ok(b) => Ok(
                            (
                                infos.push(
                                    InfoView {
                                        stage: c.stage as int,
                                        first_row: f,
                                        last_row: l,
                                        line: c.line@,
                                        im_pol: c.im_pol as int,
                                        ..b
                                    },
                                ),
                                block_encoding(si, c.code@, nums, false).1,
                            ),
                        ),
                    },
                }
            },
        }
    }
}

/// The expression is the constraint polynomial, the FRI polynomial, or one
/// committed as a column: its result goes to a temporary.
pub open spec fn is_special(si: StarkInfo, exp_id: u64) -> bool {
    ||| exp_id == si.c_exp_id
    ||| exp_id == si.fri_exp_id
    ||| exists|k: int| 0 <= k < si.cm_pols_map@.len() && (#[trigger] si.cm_pols_map@[k]).exp_id == exp_id
}

/// The code of an expression as it is encoded: for a special expression the
/// last operation writes the next free temporary.
pub open spec fn redirected_code(si: StarkInfo, e: ExpCode) -> Seq<CodeOperation> {
    let code = e.code@;
    if is_special(si, e.exp_id) && code.len() > 0 {
        let c = code.last();
        code.update(
            code.len() - 1,
            CodeOperation {
                op: c.op,
                dest: CodeType {
                    op_type: OpType::Tmp,
                    id: e.tmp_used,
                    prime: c.dest.prime,
                    dim: c.dest.dim,
                    value: c.dest.value,
                    commit_id: c.dest.commit_id,
                    boundary_id: c.dest.boundary_id,
                    airgroup_id: c.dest.airgroup_id,
                },
                src: c.src,
            },
        )
    } else {
        code
    }
}

/// The encodings of the first `k` expressions, with the numbers they share.
pub open spec fn expressions_infos(si: StarkInfo, es: Seq<ExpCode>, k: int) -> Result<(Seq<InfoView>, Seq<Seq<char>>), SetupError>
    decreases k,
{
    if k <= 0 {
        Ok((Seq::empty(), Seq::empty()))
    } else {
        match expressions_infos(si, es, k - 1) {
            Err(e) => Err(e),
            Ok((infos, nums)) => {
                let x = es[k - 1];
                let code = redirected_code(si, x);
                match block_info(si, code, nums, false) {
                    Err(e) => Err(e),
                    Ok(b) => Ok(
                        (
                            infos.push(InfoView { exp_id: x.exp_id as int, stage: x.stage as int, line: x.line@, ..b }),
                            block_encoding(si, code, nums, false).1,
                        ),
                    ),
                }
            },
        }
    }
}

/// A size of a block: temporaries of dimension 1 (0) and 3 (1), arguments
/// (2) and operations (3).
pub open spec fn size_of(i: InfoView, which: int) -> int {
    if which == 0 {
        i.n_temp1
    } else if which == 1 {
        i.n_temp3
    } else if which == 2 {
        i.args.len() as int
    } else {
        i.ops.len() as int
    }
}

/// The largest size `which` over `s`, and 0 for none.
pub open spec fn max_of(s: Seq<InfoView>, which: int) -> int
    decreases s.len(),
{
    if s.len() == 0 {
        0
    } else {
        let m = max_of(s.drop_last(), which);
        if size_of(s.last(), which) > m { size_of(s.last(), which) } else { m }
    }
}

/// Sizes of the largest block.
#[derive(Debug, Clone, Copy)]
pub struct BlockMaxima {
    pub max_tmp1: u64,
    pub max_tmp3: u64,
    pub max_args: u64,
    pub max_ops: u64,
}

/// The maxima over the blocks `s`.
pub open spec fn maxima_of(s: Seq<InfoView>) -> BlockMaxima {
    BlockMaxima {
        max_tmp1: max_of(s, 0) as u64,
        max_tmp3: max_of(s, 1) as u64,
        max_args: max_of(s, 2) as u64,
        max_ops: max_of(s, 3) as u64,
    }
}

proof fn lemma_max_of_bounds(s: Seq<InfoView>, which: int, b: int)
    requires
        0 <= b,
        forall|k: int| 0 <= k < s.len() ==> size_of(#[trigger] s[k], which) <= b,
    ensures
        0 <= max_of(s, which) <= b,
    decreases s.len(),
{
    if s.len() > 0 {
        assert forall|k: int| 0 <= k < s.drop_last().len() implies size_of(#[trigger] s.drop_last()[k], which) <= b by {
            assert(s.drop_last()[k] == s[k]);
        }
        lemma_max_of_bounds(s.drop_last(), which, b);
        assert(size_of(s[s.len() - 1], which) <= b);
    }
}

/// The maxima over the blocks `v`, starting from `m`.
fn update_maxima(m: &mut BlockMaxima, v: &Vec<ExpsInfo>, Ghost(before): Ghost<Seq<InfoView>>)
    requires
        *old(m) == maxima_of(before),
        before.len() + v@.len() <= usize::MAX,
        forall|k: int| 0 <= k < before.len() ==> 0 <= (#[trigger] before[k]).n_temp1 <= u64::MAX && 0 <= before[k].n_temp3
            <= u64::MAX && before[k].args.len() <= usize::MAX && before[k].ops.len() <= usize::MAX,
    ensures
        *final(m) == maxima_of(before + infos_view(v@)),
{
    let mut i: usize = 0;
    while i < v.len()
        invariant
            i <= v@.len(),
            *m == maxima_of(before + infos_view(v@.subrange(0, i as int))),
            forall|k: int| 0 <= k < before.len() ==> 0 <= (#[trigger] before[k]).n_temp1 <= u64::MAX && 0
                <= before[k].n_temp3 <= u64::MAX && before[k].args.len() <= usize::MAX && before[k].ops.len()
                <= usize::MAX,
        decreases v.len() - i,
    {
        let ghost s0 = before + infos_view(v@.subrange(0, i as int));
        let ghost s1 = before + infos_view(v@.subrange(0, i as int + 1));
        proof {
            assert(s1.drop_last() =~= s0);
            assert(s1.last() == info_view(v@[i as int]));
            assert forall|k: int| 0 <= k < s0.len() implies 0 <= (#[trigger] s0[k]).n_temp1 <= u64::MAX && 0 <= s0[k].n_temp3
                <= u64::MAX && s0[k].args.len() <= usize::MAX && s0[k].ops.len() <= usize::MAX by {
                if k >= before.len() {
                    let j = k - before.len();
                    assert(v@.subrange(0, i as int)[j] == v@[j]);
                    assert(s0[k] == info_view(v@[j]));
                    assert(v@[j].args@.len() == v@[j].args.len());
                    assert(v@[j].ops@.len() == v@[j].ops.len());
                } else {
                    assert(s0[k] == before[k]);
                }
            }
            lemma_max_of_bounds(s0, 0, u64::MAX as int);
            lemma_max_of_bounds(s0, 1, u64::MAX as int);
            lemma_max_of_bounds(s0, 2, usize::MAX as int);
            lemma_max_of_bounds(s0, 3, usize::MAX as int);
        }
        let p = &v[i];
        if p.n_temp1 > m.max_tmp1 {
            m.max_tmp1 = p.n_temp1;
        }
        if p.n_temp3 > m.max_tmp3 {
            m.max_tmp3 = p.n_temp3;
        }
        if p.args.len() as u64 > m.max_args {
            m.max_args = p.args.len() as u64;
        }
        if p.ops.len() as u64 > m.max_ops {
            m.max_ops = p.ops.len() as u64;
        }
        i = i + 1;
    }
    proof {
        assert(v@.subrange(0, v@.len() as int) =~= v@);
    }
}

proof fn lemma_constraints_err(si: StarkInfo, cs: Seq<ExpCode>, k: int, m: int)
    requires
        0 <= k <= m,
        constraints_infos(si, cs, k) is Err,
    ensures
        constraints_infos(si, cs, m) == constraints_infos(si, cs, k),
    decreases m - k,
{
    if k < m {
        lemma_constraints_err(si, cs, k, m - 1);
    }
}

proof fn lemma_expressions_err(si: StarkInfo, es: Seq<ExpCode>, k: int, m: int)
    requires
        0 <= k <= m,
        expressions_infos(si, es, k) is Err,
    ensures
        expressions_infos(si, es, m) == expressions_infos(si, es, k),
    decreases m - k,
{
    if k < m {
        lemma_expressions_err(si, es, k, m - 1);
    }
}

/// The rows a constraint on `boundary` applies to in a trace of `n` rows.
fn row_range_exec(boundary: &str, n: u64, offset_min: u64, offset_max: u64) -> (r: Option<(u64, u64)>)
    requires
        n >= 1,
        boundary@ == "everyFrame"@ ==> offset_max <= n,
    ensures
        match row_range(boundary@, n as int, offset_min, offset_max) {
            Some((f, l)) => r == Some((f as u64, l as u64)) && 0 <= f && 0 <= l,
            None => r is None,
        },
{
    if str_is(boundary, "everyRow") {
        Some((0, n))
    } else if str_is(boundary, "firstRow") || str_is(boundary, "finalProof") {
        Some((0, 1))
    } else if str_is(boundary, "lastRow") {
        Some((n - 1, n))
    } else if str_is(boundary, "everyFrame") {
        Some((offset_min, n - offset_max))
    } else {
        None
    }
}

/// The encodings of all constraints, with the numbers they share.
fn prepare_constraints(si: &StarkInfo, cs: &Vec<ExpCode>) -> (r: Result<(Vec<ExpsInfo>, Vec<String>), SetupError>)
    requires
        si.stark_struct.n_bits < 64,
        forall|k: int| 0 <= k < cs@.len() ==> parser_args_ok(*si, (#[trigger] cs@[k]).code@, false, false, None),
        forall|k: int|
            0 <= k < cs@.len() && (#[trigger] cs@[k]).boundary@ == "everyFrame"@ ==> cs@[k].offset_max
                <= pow2(si.stark_struct.n_bits as nat),
    ensures
        match r {
            Ok((v, nums)) => v@.len() == cs@.len() && constraints_infos(*si, cs@, cs@.len() as int) == Ok::<
                (Seq<InfoView>, Seq<Seq<char>>),
                SetupError,
            >((infos_view(v@), strings_view(nums@))),
            Err(e) => constraints_infos(*si, cs@, cs@.len() as int) == Err::<(Seq<InfoView>, Seq<Seq<char>>), SetupError>(e),
        },
{
    let nb = si.stark_struct.n_bits;
    proof {
        vstd::bits::lemma_u64_pow2_no_overflow(nb as nat);
        vstd::bits::lemma_u64_shl_is_mul(1, nb);
    }
    let n: u64 = 1u64 << nb;
    let mut out: Vec<ExpsInfo> = Vec::new();
    let mut numbers: Vec<String> = Vec::new();
    let mut i: usize = 0;
    proof {
        assert(infos_view(out@) =~= Seq::<InfoView>::empty());
        assert(strings_view(numbers@) =~= Seq::<Seq<char>>::empty());
    }
    while i < cs.len()
        invariant
            i <= cs@.len(),
            out@.len() == i,
            n as int == pow2(si.stark_struct.n_bits as nat),
            n >= 1,
            forall|k: int| 0 <= k < cs@.len() ==> parser_args_ok(*si, (#[trigger] cs@[k]).code@, false, false, None),
            forall|k: int|
                0 <= k < cs@.len() && (#[trigger] cs@[k]).boundary@ == "everyFrame"@ ==> cs@[k].offset_max
                    <= pow2(si.stark_struct.n_bits as nat),
            constraints_infos(*si, cs@, i as int) == Ok::<(Seq<InfoView>, Seq<Seq<char>>), SetupError>(
                (infos_view(out@), strings_view(numbers@))),
        decreases cs.len() - i,
    {
        let c = &cs[i];
        let rows = row_range_exec(c.boundary.as_str(), n, c.offset_min, c.offset_max);
        let ghost nums0 = strings_view(numbers@);
        let ghost out0 = infos_view(out@);
        match rows {
            None => {
                proof {
                    lemma_constraints_err(*si, cs@, i as int + 1, cs@.len() as int);
                }
                return Err(SetupError::InvalidBoundary);
            },
            Some((first_row, last_row)) => {
                match encode_block(si, c.code.as_slice(), &mut numbers, false) {
                    Err(e) => {
                        proof {
                            lemma_constraints_err(*si, cs@, i as int + 1, cs@.len() as int);
                        }
                        return Err(e);
                    },
                    Ok(info) => {
                        let mut info = info;
                        info.stage = c.stage;
                        info.first_row = first_row;
                        info.last_row = last_row;
                        info.line = crate::text::owned(c.line.as_str());
                        info.im_pol = c.im_pol;
                        out.push(info);
                        proof {
                            assert(infos_view(out@) =~= out0.push(info_view(info)));
                        }
                    },
                }
            },
        }
        i = i + 1;
    }
    Ok((out, numbers))
}

/// `exp_id` is the constraint or FRI polynomial, or committed as a column.
fn is_special_exec(si: &StarkInfo, exp_id: u64) -> (b: bool)
    ensures
        b == is_special(*si, exp_id),
{
    if exp_id == si.c_exp_id || exp_id == si.fri_exp_id {
        return true;
    }
    let mut k: usize = 0;
    while k < si.cm_pols_map.len()
        invariant
            k <= si.cm_pols_map@.len(),
            exp_id != si.c_exp_id && exp_id != si.fri_exp_id,
            forall|t: int| 0 <= t < k ==> (#[trigger] si.cm_pols_map@[t]).exp_id != exp_id,
        decreases si.cm_pols_map.len() - k,
    {
        if si.cm_pols_map[k].exp_id == exp_id {
            return true;
        }
        k = k + 1;
    }
    false
}

/// Points the last operation of a special expression at its next free
/// temporary.
fn redirect(si: &StarkInfo, x: &mut ExpCode)
    requires
        is_special(*si, old(x).exp_id) && old(x).code@.len() > 0 ==> old(x).tmp_used < u64::MAX,
    ensures
        final(x).code@ == redirected_code(*si, *old(x)),
        final(x).exp_id == old(x).exp_id,
        final(x).stage == old(x).stage,
        final(x).line == old(x).line,
{
    if is_special_exec(si, x.exp_id) && x.code.len() > 0 {
        let last = x.code.len() - 1;
        let mut op = x.code.remove(last);
        op.dest.op_type = OpType::Tmp;
        op.dest.id = x.tmp_used;
        x.code.push(op);
        x.tmp_used = x.tmp_used + 1;
        proof {
            assert(x.code@ =~= redirected_code(*si, *old(x)));
        }
    }
}

/// The encodings of all expressions, with the numbers they share.
fn prepare_expressions(si: &StarkInfo, es: Vec<ExpCode>) -> (r: Result<(Vec<ExpsInfo>, Vec<String>), SetupError>)
    requires
        forall|k: int| 0 <= k < es@.len() ==> parser_args_ok(*si, redirected_code(*si, #[trigger] es@[k]), false, false, None),
        forall|k: int|
            0 <= k < es@.len() && is_special(*si, (#[trigger] es@[k]).exp_id) && es@[k].code@.len() > 0 ==> es@[k].tmp_used
                < u64::MAX,
    ensures
        match r {
            Ok((v, nums)) => v@.len() == es@.len() && expressions_infos(*si, es@, es@.len() as int) == Ok::<
                (Seq<InfoView>, Seq<Seq<char>>),
                SetupError,
            >((infos_view(v@), strings_view(nums@))),
            Err(e) => expressions_infos(*si, es@, es@.len() as int) == Err::<(Seq<InfoView>, Seq<Seq<char>>), SetupError>(e),
        },
{
    let ghost e0 = es@;
    let n = es.len();
    let mut rest = es;
    let mut out: Vec<ExpsInfo> = Vec::new();
    let mut numbers: Vec<String> = Vec::new();
    let mut i: usize = 0;
    proof {
        assert(infos_view(out@) =~= Seq::<InfoView>::empty());
        assert(strings_view(numbers@) =~= Seq::<Seq<char>>::empty());
        assert(rest@ =~= e0.subrange(0, e0.len() as int));
    }
    while i < n
        invariant
            n == e0.len(),
            i <= n,
            e0 == es@,
            out@.len() == i,
            rest@ == e0.subrange(i as int, n as int),
            forall|k: int| 0 <= k < e0.len() ==> parser_args_ok(*si, redirected_code(*si, #[trigger] e0[k]), false, false, None),
            forall|k: int|
                0 <= k < e0.len() && is_special(*si, (#[trigger] e0[k]).exp_id) && e0[k].code@.len() > 0 ==> e0[k].tmp_used
                    < u64::MAX,
            expressions_infos(*si, e0, i as int) == Ok::<(Seq<InfoView>, Seq<Seq<char>>), SetupError>(
                (infos_view(out@), strings_view(numbers@))),
        decreases n - i,
    {
        let mut x = rest.remove(0);
        proof {
            assert(x == e0[i as int]);
            assert(rest@ =~= e0.subrange(i as int + 1, n as int));
        }
        let ghost x0 = x;
        redirect(si, &mut x);
        let ghost out0 = infos_view(out@);
        match encode_block(si, x.code.as_slice(), &mut numbers, false) {
            Err(e) => {
                proof {
                    assert(x0 == e0[i as int]);
                    assert(x.code@ == redirected_code(*si, e0[i as int]));
                    assert(expressions_infos(*si, e0, i as int + 1) == Err::<(Seq<InfoView>, Seq<Seq<char>>), SetupError>(e));
                    lemma_expressions_err(*si, e0, i as int + 1, n as int);
                }
                return Err(e);
            },
            Ok(info) => {
                let mut info = info;
                info.exp_id = x.exp_id;
                info.stage = x.stage;
                info.line = x.line;
                out.push(info);
                proof {
                    assert(infos_view(out@) =~= out0.push(info_view(info)));
                }
            },
        }
        i = i + 1;
    }
    Ok((out, numbers))
}

/// The encoded constraints and expressions of an AIR, ready to be written.
pub struct PreparedExpressionsBin {
    pub exps_info: Vec<ExpsInfo>,
    pub constraints_info: Vec<ExpsInfo>,
    pub hints_info: Vec<Hint>,
    pub numbers_exps: Vec<String>,
    pub numbers_constraints: Vec<String>,
    pub max_tmp1: u64,
    pub max_tmp3: u64,
    pub max_args: u64,
    pub max_ops: u64,
}

/// Encodes every constraint (with the rows its boundary covers) and every
/// expression (the constraint polynomial, the FRI polynomial and committed
/// expressions writing to a fresh temporary), each list with its own table
/// of numbers, and the largest sizes over both. Fails on the first
/// constraint with an unknown boundary or block that cannot be encoded.
pub fn prepare_expressions_bin(stark_info: &StarkInfo, expressions_info: ExpressionsInfo) -> (r: Result<
    PreparedExpressionsBin,
    SetupError,
>)
    requires
        stark_info.stark_struct.n_bits < 64,
        expressions_info.constraints@.len() + expressions_info.expressions_code@.len() <= usize::MAX,
        forall|k: int|
            0 <= k < expressions_info.constraints@.len() ==> parser_args_ok(
                *stark_info,
                (#[trigger] expressions_info.constraints@[k]).code@,
                false,
                false,
                None,
            ),
        forall|k: int|
            0 <= k < expressions_info.constraints@.len() && (#[trigger] expressions_info.constraints@[k]).boundary@
                == "everyFrame"@ ==> expressions_info.constraints@[k].offset_max <= pow2(
                stark_info.stark_struct.n_bits as nat,
            ),
        forall|k: int|
            0 <= k < expressions_info.expressions_code@.len() ==> parser_args_ok(
                *stark_info,
                redirected_code(*stark_info, #[trigger] expressions_info.expressions_code@[k]),
                false,
                false,
                None,
            ),
        forall|k: int|
            0 <= k < expressions_info.expressions_code@.len() && is_special(
                *stark_info,
                (#[trigger] expressions_info.expressions_code@[k]).exp_id,
            ) && expressions_info.expressions_code@[k].code@.len() > 0 ==> expressions_info.expressions_code@[k].tmp_used
                < u64::MAX,
    ensures
        ({
            let ci = constraints_infos(*stark_info, expressions_info.constraints@, expressions_info.constraints@.len() as int);
            let ei = expressions_infos(
                *stark_info,
                expressions_info.expressions_code@,
                expressions_info.expressions_code@.len() as int,
            );
            match r {
                Ok(b) => {
                    &&& ci == Ok::<(Seq<InfoView>, Seq<Seq<char>>), SetupError>(
                        (infos_view(b.constraints_info@), strings_view(b.numbers_constraints@)))
                    &&& ei == Ok::<(Seq<InfoView>, Seq<Seq<char>>), SetupError>(
                        (infos_view(b.exps_info@), strings_view(b.numbers_exps@)))
                    &&& b.hints_info == expressions_info.hints_info
                    &&& maxima_of(infos_view(b.constraints_info@) + infos_view(b.exps_info@)) == (BlockMaxima {
                        max_tmp1: b.max_tmp1,
                        max_tmp3: b.max_tmp3,
                        max_args: b.max_args,
                        max_ops: b.max_ops,
                    })
                },
                Err(e) => match ci {
                    Err(e1) => e == e1,
                    Ok(_) => ei == Err::<(Seq<InfoView>, Seq<Seq<char>>), SetupError>(e),
                },
            }
        }),
{
    let (constraints_info, numbers_constraints) = match prepare_constraints(stark_info, &expressions_info.constraints) {
        Ok(p) => p,
        Err(e) => {
            return Err(e);
        },
    };
    let ExpressionsInfo { expressions_code, constraints: _, hints_info } = expressions_info;
    let (exps_info, numbers_exps) = match prepare_expressions(stark_info, expressions_code) {
        Ok(p) => p,
        Err(e) => {
            return Err(e);
        },
    };
    let mut m = BlockMaxima { max_tmp1: 0, max_tmp3: 0, max_args: 0, max_ops: 0 };
    proof {
        assert(m == maxima_of(Seq::<InfoView>::empty()));
        assert(Seq::<InfoView>::empty() + infos_view(constraints_info@) =~= infos_view(constraints_info@));
    }
    update_maxima(&mut m, &constraints_info, Ghost(Seq::<InfoView>::empty()));
    proof {
        let cv = infos_view(constraints_info@);
        assert forall|k: int| 0 <= k < cv.len() implies 0 <= (#[trigger] cv[k]).n_temp1 <= u64::MAX && 0 <= cv[k].n_temp3
            <= u64::MAX && cv[k].args.len() <= usize::MAX && cv[k].ops.len() <= usize::MAX by {
            assert(cv[k] == info_view(constraints_info@[k]));
            assert(constraints_info@[k].args@.len() == constraints_info@[k].args.len());
            assert(constraints_info@[k].ops@.len() == constraints_info@[k].ops.len());
        }
    }
    update_maxima(&mut m, &exps_info, Ghost(infos_view(constraints_info@)));
    Ok(PreparedExpressionsBin {
        exps_info,
        constraints_info,
        hints_info,
        numbers_exps,
        numbers_constraints,
        max_tmp1: m.max_tmp1,
        max_tmp3: m.max_tmp3,
        max_args: m.max_args,
        max_ops: m.max_ops,
    })
}

/// The encoded checks of the verifier, ready to be written.
pub struct PreparedVerifierBin {
    pub q_code: ExpsInfo,
    pub query_code: ExpsInfo,
    pub numbers_exps: Vec<String>,
    pub max_tmp1: u64,
    pub max_tmp3: u64,
    pub max_args: u64,
    pub max_ops: u64,
}

/// Encodes the verifier's constraint check (as the constraint polynomial)
/// and FRI query check (as the FRI polynomial), sharing one table of
/// numbers, with the largest sizes of the two. Fails as either encoding
/// fails.
pub fn prepare_verifier_expressions_bin(stark_info: &StarkInfo, verifier_info: &VerifierInfo) -> (r: Result<
    PreparedVerifierBin,
    SetupError,
>)
    requires
        parser_args_ok(*stark_info, verifier_info.q_verifier.code@, false, true, None),
        parser_args_ok(*stark_info, verifier_info.query_verifier.code@, false, true, None),
    ensures
        ({
            let qc = verifier_info.q_verifier.code@;
            let fc = verifier_info.query_verifier.code@;
            let q = block_info(*stark_info, qc, Seq::empty(), true);
            let n1 = block_encoding(*stark_info, qc, Seq::empty(), true).1;
            let f = block_info(*stark_info, fc, n1, true);
            match r {
                Ok(b) => {
                    &&& q is Ok && f is Ok
                    &&& info_view(b.q_code) == (InfoView { exp_id: stark_info.c_exp_id as int, ..q.unwrap() })
                    &&& info_view(b.query_code) == (InfoView { exp_id: stark_info.fri_exp_id as int, ..f.unwrap() })
                    &&& strings_view(b.numbers_exps@) == block_encoding(*stark_info, fc, n1, true).1
                    &&& maxima_of(seq![info_view(b.q_code), info_view(b.query_code)]) == (BlockMaxima {
                        max_tmp1: b.max_tmp1,
                        max_tmp3: b.max_tmp3,
                        max_args: b.max_args,
                        max_ops: b.max_ops,
                    })
                },
                Err(e) => match q {
                    Err(e1) => e == e1,
                    Ok(_) => f == Err::<InfoView, SetupError>(e),
                },
            }
        }),
{
    let mut numbers: Vec<String> = Vec::new();
    proof {
        assert(strings_view(numbers@) =~= Seq::<Seq<char>>::empty());
    }
    let mut q_code = match encode_block(stark_info, verifier_info.q_verifier.code.as_slice(), &mut numbers, true) {
        Ok(p) => p,
        Err(e) => {
            return Err(e);
        },
    };
    q_code.exp_id = stark_info.c_exp_id;
    q_code.line = String::new();
    let mut query_code = match encode_block(stark_info, verifier_info.query_verifier.code.as_slice(), &mut numbers, true) {
        Ok(p) => p,
        Err(e) => {
            return Err(e);
        },
    };
    query_code.exp_id = stark_info.fri_exp_id;
    query_code.line = String::new();
    let mut both: Vec<ExpsInfo> = Vec::new();
    let mut m = BlockMaxima { max_tmp1: 0, max_tmp3: 0, max_args: 0, max_ops: 0 };
    proof {
        assert(info_view(q_code) == (InfoView { exp_id: stark_info.c_exp_id as int, ..block_info(*stark_info,
            verifier_info.q_verifier.code@, Seq::empty(), true).unwrap() }));
        assert(m == maxima_of(Seq::<InfoView>::empty()));
    }
    both.push(q_code);
    both.push(query_code);
    let ghost bv = both@;
    update_maxima(&mut m, &both, Ghost(Seq::<InfoView>::empty()));
    let query_code = both.pop().unwrap();
    let q_code = both.pop().unwrap();
    proof {
        assert(bv =~= seq![q_code, query_code]);
    }
    proof {
        let qc = verifier_info.q_verifier.code@;
        let fc = verifier_info.query_verifier.code@;
        let n1 = block_encoding(*stark_info, qc, Seq::empty(), true).1;
        assert(Seq::<InfoView>::empty() + infos_view(seq![q_code, query_code]) =~= seq![info_view(q_code), info_view(query_code)]);
        assert(info_view(q_code) == (InfoView { exp_id: stark_info.c_exp_id as int, ..block_info(*stark_info, qc, Seq::empty(), true).unwrap() }));
        assert(info_view(query_code) == (InfoView { exp_id: stark_info.fri_exp_id as int, ..block_info(*stark_info, fc, n1, true).unwrap() }));
        assert(strings_view(numbers@) == block_encoding(*stark_info, fc, n1, true).1);
    }
    Ok(PreparedVerifierBin {
        q_code,
        query_code,
        numbers_exps: numbers,
        max_tmp1: m.max_tmp1,
        max_tmp3: m.max_tmp3,
        max_args: m.max_args,
        max_ops: m.max_ops,
    })
}

// ---------------------------------------------------------------------------
// Sections of the binary
// ---------------------------------------------------------------------------

/// A 32-bit little-endian integer.
pub open spec fn w32(x: u32) -> Seq<u8> {
    le_bytes(x as nat, 4)
}

/// A zero-terminated string.
pub open spec fn zstr(s: Seq<char>) -> Seq<u8> {
    encode_utf8(s) + seq![0u8]
}

/// A section: its identifier, the size of its payload, and the payload.
pub open spec fn section_bytes(id: u32, payload: Seq<u8>) -> Seq<u8> {
    w32(id) + le_bytes(payload.len(), 8) + payload
}

/// The value a number of the table is written as: its decimal value, or 0
/// when it is not one.
pub open spec fn number_value(s: Seq<char>) -> nat {
    match parse_u64(s) {
        Some(v) => v as nat,
        None => 0,
    }
}

/// Operations of the first `k` blocks.
pub open spec fn ops_total(infos: Seq<ExpsInfo>, k: int) -> nat
    decreases k,
{
    if k <= 0 { 0 } else { ops_total(infos, k - 1) + infos[k - 1].ops@.len() }
}

/// Arguments of the first `k` blocks.
pub open spec fn args_total(infos: Seq<ExpsInfo>, k: int) -> nat
    decreases k,
{
    if k <= 0 { 0 } else { args_total(infos, k - 1) + infos[k - 1].args@.len() }
}

/// Operations as bytes.
pub open spec fn op_bytes(ops: Seq<u64>) -> Seq<u8> {
    ops.map_values(|o: u64| o as u8)
}

/// Arguments as 16-bit integers.
pub open spec fn arg_bytes(args: Seq<u64>) -> Seq<u8>
    decreases args.len(),
{
    if args.len() == 0 {
        Seq::empty()
    } else {
        arg_bytes(args.drop_last()) + le_bytes(args.last() as u16 as nat, 2)
    }
}

/// The operations of the first `k` blocks, as bytes.
pub open spec fn all_op_bytes(infos: Seq<ExpsInfo>, k: int) -> Seq<u8>
    decreases k,
{
    if k <= 0 { Seq::empty() } else { all_op_bytes(infos, k - 1) + op_bytes(infos[k - 1].ops@) }
}

/// The arguments of the first `k` blocks, as 16-bit integers.
pub open spec fn all_arg_bytes(infos: Seq<ExpsInfo>, k: int) -> Seq<u8>
    decreases k,
{
    if k <= 0 { Seq::empty() } else { all_arg_bytes(infos, k - 1) + arg_bytes(infos[k - 1].args@) }
}

/// The first `k` numbers of the table, as 64-bit integers.
pub open spec fn number_bytes(nums: Seq<Seq<char>>, k: int) -> Seq<u8>
    decreases k,
{
    if k <= 0 { Seq::empty() } else { number_bytes(nums, k - 1) + le_bytes(number_value(nums[k - 1]), 8) }
}

/// The header of an expression block, with the offsets of its operations
/// and arguments.
pub open spec fn exp_header(p: ExpsInfo, ops_off: nat, args_off: nat) -> Seq<u8> {
    w32(p.exp_id as u32) + w32(p.dest_dim as u32) + w32(p.dest_id as u32) + w32(p.stage as u32) + w32(p.n_temp1 as u32)
        + w32(p.n_temp3 as u32) + w32(p.ops@.len() as u32) + w32(ops_off as u32) + w32(p.args@.len() as u32) + w32(
        args_off as u32) + zstr(p.line@)
}

/// The header of a constraint block, with the offsets of its operations
/// and arguments.
pub open spec fn constraint_header(p: ExpsInfo, ops_off: nat, args_off: nat) -> Seq<u8> {
    w32(p.stage as u32) + w32(p.dest_dim as u32) + w32(p.dest_id as u32) + w32(p.first_row as u32) + w32(
        p.last_row as u32) + w32(p.n_temp1 as u32) + w32(p.n_temp3 as u32) + w32(p.ops@.len() as u32) + w32(
        ops_off as u32) + w32(p.args@.len() as u32) + w32(args_off as u32) + w32(p.im_pol as u32) + zstr(p.line@)
}

/// The headers of the first `k` blocks (`constraint` selects the layout).
pub open spec fn headers(infos: Seq<ExpsInfo>, k: int, constraint: bool) -> Seq<u8>
    decreases k,
{
    if k <= 0 {
        Seq::empty()
    } else {
        let p = infos[k - 1];
        let oo = ops_total(infos, k - 1);
        let ao = args_total(infos, k - 1);
        headers(infos, k - 1, constraint) + if constraint { constraint_header(p, oo, ao) } else { exp_header(p, oo, ao) }
    }
}

/// The payload of an expressions section.
pub open spec fn expressions_payload(infos: Seq<ExpsInfo>, nums: Seq<Seq<char>>, m: BlockMaxima) -> Seq<u8> {
    let n = infos.len() as int;
    w32(m.max_tmp1 as u32) + w32(m.max_tmp3 as u32) + w32(m.max_args as u32) + w32(m.max_ops as u32) + w32(
        ops_total(infos, n) as u32) + w32(args_total(infos, n) as u32) + w32(nums.len() as u32) + w32(n as u32)
        + headers(infos, n, false) + all_op_bytes(infos, n) + all_arg_bytes(infos, n) + number_bytes(nums, nums.len() as int)
}

/// The payload of a constraints section.
pub open spec fn constraints_payload(infos: Seq<ExpsInfo>, nums: Seq<Seq<char>>) -> Seq<u8> {
    let n = infos.len() as int;
    w32(ops_total(infos, n) as u32) + w32(args_total(infos, n) as u32) + w32(nums.len() as u32) + w32(n as u32)
        + headers(infos, n, true) + all_op_bytes(infos, n) + all_arg_bytes(infos, n) + number_bytes(nums, nums.len() as int)
}

/// Appends a 32-bit integer.
fn push_u32(buf: &mut Vec<u8>, x: u32)
    ensures
        final(buf)@ == old(buf)@ + w32(x),
{
    let b = le_bytes_exec(x as u64, 4);
    let ghost b0 = buf@;
    let mut k: usize = 0;
    proof {
        lemma_le_bytes_len(x as nat, 4);
    }
    while k < 4
        invariant
            k <= 4,
            b@ == le_bytes(x as nat, 4),
            b@.len() == 4,
            buf@ == b0 + b@.subrange(0, k as int),
        decreases 4 - k,
    {
        buf.push(b[k]);
        proof {
            assert(b@.subrange(0, k as int + 1) =~= b@.subrange(0, k as int).push(b@[k as int]));
        }
        k = k + 1;
    }
    proof {
        assert(b@.subrange(0, 4) =~= b@);
    }
}

/// Appends the bytes of `v`.
fn push_all(buf: &mut Vec<u8>, v: &[u8])
    ensures
        final(buf)@ == old(buf)@ + v@,
{
    let mut k: usize = 0;
    while k < v.len()
        invariant
            k <= v@.len(),
            buf@ == old(buf)@ + v@.subrange(0, k as int),
        decreases v.len() - k,
    {
        buf.push(v[k]);
        proof {
            assert(v@.subrange(0, k as int + 1) =~= v@.subrange(0, k as int).push(v@[k as int]));
        }
        k = k + 1;
    }
    proof {
        assert(v@.subrange(0, v@.len() as int) =~= v@);
    }
}

/// Appends a zero-terminated string.
fn push_zstr(buf: &mut Vec<u8>, s: &str)
    ensures
        final(buf)@ == old(buf)@ + zstr(s@),
{
    push_all(buf, s.as_bytes());
    buf.push(0u8);
    proof {
        assert(final(buf)@ =~= old(buf)@ + zstr(s@)) by {
            assert(buf@ =~= old(buf)@ + s.spec_bytes() + seq![0u8]);
        }
    }
}

/// The operation and argument counts of all blocks, which must fit in 32 bits.
fn totals(infos: &Vec<ExpsInfo>) -> (r: (u32, u32))
    requires
        ops_total(infos@, infos@.len() as int) <= u32::MAX,
        args_total(infos@, infos@.len() as int) <= u32::MAX,
    ensures
        r.0 == ops_total(infos@, infos@.len() as int),
        r.1 == args_total(infos@, infos@.len() as int),
{
    let mut o: u32 = 0;
    let mut a: u32 = 0;
    let mut i: usize = 0;
    while i < infos.len()
        invariant
            i <= infos@.len(),
            o == ops_total(infos@, i as int),
            a == args_total(infos@, i as int),
            ops_total(infos@, infos@.len() as int) <= u32::MAX,
            args_total(infos@, infos@.len() as int) <= u32::MAX,
        decreases infos.len() - i,
    {
        proof {
            lemma_totals_grow(infos@, i as int + 1, infos@.len() as int);
        }
        o = o + infos[i].ops.len() as u32;
        a = a + infos[i].args.len() as u32;
        i = i + 1;
    }
    (o, a)
}

proof fn lemma_totals_grow(infos: Seq<ExpsInfo>, k: int, m: int)
    requires
        0 <= k <= m,
    ensures
        ops_total(infos, k) <= ops_total(infos, m),
        args_total(infos, k) <= args_total(infos, m),
    decreases m - k,
{
    if k < m {
        lemma_totals_grow(infos, k, m - 1);
    }
}

/// Appends the header of one block (`constraint` selects the layout) and
/// its line.
fn push_block_header(buf: &mut Vec<u8>, p: &ExpsInfo, constraint: bool, oo: u32, ao: u32)
    ensures
        final(buf)@ == old(buf)@ + if constraint {
            constraint_header(*p, oo as nat, ao as nat)
        } else {
            exp_header(*p, oo as nat, ao as nat)
        },
{
    if constraint {
        push_u32(buf, p.stage as u32);
        push_u32(buf, p.dest_dim as u32);
        push_u32(buf, p.dest_id as u32);
        push_u32(buf, p.first_row as u32);
        push_u32(buf, p.last_row as u32);
        push_u32(buf, p.n_temp1 as u32);
        push_u32(buf, p.n_temp3 as u32);
        push_u32(buf, p.ops.len() as u32);
        push_u32(buf, oo);
        push_u32(buf, p.args.len() as u32);
        push_u32(buf, ao);
        push_u32(buf, p.im_pol as u32);
    } else {
        push_u32(buf, p.exp_id as u32);
        push_u32(buf, p.dest_dim as u32);
        push_u32(buf, p.dest_id as u32);
        push_u32(buf, p.stage as u32);
        push_u32(buf, p.n_temp1 as u32);
        push_u32(buf, p.n_temp3 as u32);
        push_u32(buf, p.ops.len() as u32);
        push_u32(buf, oo);
        push_u32(buf, p.args.len() as u32);
        push_u32(buf, ao);
    }
    push_zstr(buf, p.line.as_str());
    proof {
        let h = if constraint {
            constraint_header(*p, oo as nat, ao as nat)
        } else {
            exp_header(*p, oo as nat, ao as nat)
        };
        assert(buf@ =~= old(buf)@ + h);
    }
}

/// The block headers, operations and arguments of `infos` (`constraint`
/// selects the header layout).
fn blocks_bytes(buf: &mut Vec<u8>, infos: &Vec<ExpsInfo>, constraint: bool)
    requires
        ops_total(infos@, infos@.len() as int) <= u32::MAX,
        args_total(infos@, infos@.len() as int) <= u32::MAX,
    ensures
        final(buf)@ == old(buf)@ + headers(infos@, infos@.len() as int, constraint) + all_op_bytes(infos@, infos@.len() as int)
            + all_arg_bytes(infos@, infos@.len() as int),
{
    let n = infos.len();
    let mut oo: u32 = 0;
    let mut ao: u32 = 0;
    let mut i: usize = 0;
    while i < n
        invariant
            n == infos@.len(),
            i <= n,
            oo == ops_total(infos@, i as int),
            ao == args_total(infos@, i as int),
            ops_total(infos@, n as int) <= u32::MAX,
            args_total(infos@, n as int) <= u32::MAX,
            buf@ == old(buf)@ + headers(infos@, i as int, constraint),
        decreases n - i,
    {
        let p = &infos[i];
        proof {
            lemma_totals_grow(infos@, i as int + 1, n as int);
        }
        let ghost b0 = buf@;
        push_block_header(buf, p, constraint, oo, ao);
        proof {
            assert(buf@ =~= old(buf)@ + headers(infos@, i as int + 1, constraint));
        }
        oo = oo + p.ops.len() as u32;
        ao = ao + p.args.len() as u32;
        i = i + 1;
    }
    let ghost hb = buf@;
    let mut i: usize = 0;
    while i < n
        invariant
            n == infos@.len(),
            i <= n,
            buf@ == hb + all_op_bytes(infos@, i as int),
        decreases n - i,
    {
        let ops = &infos[i].ops;
        let ghost b1 = buf@;
        let mut k: usize = 0;
        while k < ops.len()
            invariant
                k <= ops@.len(),
                buf@ == b1 + op_bytes(ops@.subrange(0, k as int)),
            decreases ops.len() - k,
        {
            buf.push(ops[k] as u8);
            proof {
                assert(op_bytes(ops@.subrange(0, k as int + 1)) =~= op_bytes(ops@.subrange(0, k as int)).push(ops@[k as int] as u8));
            }
            k = k + 1;
        }
        proof {
            assert(ops@.subrange(0, ops@.len() as int) =~= ops@);
        }
        i = i + 1;
    }
    let ghost ob = buf@;
    let mut i: usize = 0;
    while i < n
        invariant
            n == infos@.len(),
            i <= n,
            buf@ == ob + all_arg_bytes(infos@, i as int),
        decreases n - i,
    {
        let args = &infos[i].args;
        let ghost b1 = buf@;
        let mut k: usize = 0;
        while k < args.len()
            invariant
                k <= args@.len(),
                buf@ == b1 + arg_bytes(args@.subrange(0, k as int)),
            decreases args.len() - k,
        {
            let ghost b2 = buf@;
            let lb = le_bytes_exec((args[k] as u16) as u64, 2);
            push_all(buf, lb.as_slice());
            proof {
                assert(args@.subrange(0, k as int + 1).drop_last() =~= args@.subrange(0, k as int));
                assert(buf@ =~= b1 + arg_bytes(args@.subrange(0, k as int + 1)));
            }
            k = k + 1;
        }
        proof {
            assert(args@.subrange(0, args@.len() as int) =~= args@);
        }
        i = i + 1;
    }
    proof {
        assert(buf@ =~= old(buf)@ + headers(infos@, n as int, constraint) + all_op_bytes(infos@, n as int) + all_arg_bytes(
            infos@,
            n as int,
        ));
    }
}

/// The numbers of the table as 64-bit integers.
fn numbers_bytes_exec(buf: &mut Vec<u8>, nums: &Vec<String>)
    ensures
        final(buf)@ == old(buf)@ + number_bytes(strings_view(nums@), nums@.len() as int),
{
    let mut i: usize = 0;
    while i < nums.len()
        invariant
            i <= nums@.len(),
            buf@ == old(buf)@ + number_bytes(strings_view(nums@), i as int),
        decreases nums.len() - i,
    {
        let v: u64 = match parse_u64_exec(nums[i].as_str()) {
            Some(v) => v,
            None => 0,
        };
        let lb = le_bytes_exec(v, 8);
        push_all(buf, lb.as_slice());
        proof {
            assert(strings_view(nums@)[i as int] == nums@[i as int]@);
            assert(buf@ =~= old(buf)@ + number_bytes(strings_view(nums@), i as int + 1));
        }
        i = i + 1;
    }
}

/// Writes `payload` as section `id`. Refused while a section is open.
fn write_section(writer: &mut BinFileWriter, id: u32, payload: &Vec<u8>) -> (r: Result<(), SetupError>)
    requires
        old(writer).section_start is None ==> old(writer).sections_written < u32::MAX,
    ensures
        final(writer).n_sections == old(writer).n_sections,
        match r {
            Ok(()) => {
                &&& old(writer).section_start is None
                &&& final(writer).section_start is None
                &&& final(writer).sections_written == old(writer).sections_written + 1
                &&& final(writer).bytes@ == old(writer).bytes@ + section_bytes(id, payload@)
            },
            Err(e) => {
                &&& old(writer).section_start is Some
                &&& e == SetupError::SectionAlreadyOpen
                &&& *final(writer) == *old(writer)
            },
        },
{
    let ghost b0 = writer.bytes@;
    assert(b0.len() == writer.bytes.len());
    match writer.start_write_section(id) {
        Err(e) => {
            return Err(e);
        },
        Ok(()) => {},
    }
    writer.write_bytes(payload.as_slice());
    proof {
        lemma_le_bytes_len(id as nat, 4);
        lemma_le_bytes_len(0, 8);
    }
    let ghost b1 = b0 + le_bytes(id as nat, 4) + le_bytes(0, 8) + payload@;
    proof {
        assert(writer.bytes@ =~= b1);
        assert(writer.section_start == Some(b0.len() as usize));
    }
    let r = writer.end_write_section();
    proof {
        lemma_le_bytes_len(payload@.len(), 8);
        assert(b1.len() - b0.len() - 12 == payload@.len());
        if r is Ok {
            let s0 = b0.len() as int;
            assert(b1.subrange(0, s0 + 4) =~= b0 + le_bytes(id as nat, 4));
            assert(b1.subrange(s0 + 12, b1.len() as int) =~= payload@);
            assert(writer.bytes@ == b1.subrange(0, s0 + 4) + le_bytes((b1.len() - s0 - 12) as nat, 8) + b1.subrange(
                s0 + 12,
                b1.len() as int,
            ));
            assert(writer.bytes@ == b0 + le_bytes(id as nat, 4) + le_bytes(payload@.len(), 8) + payload@);
            assert(writer.bytes@ =~= b0 + section_bytes(id, payload@));
        }
    }
    r
}

/// Writes the expressions section: the largest sizes, the counts, one
/// header per block, then every operation as a byte, every argument as a
/// 16-bit integer and every number of the table as a 64-bit integer.
pub fn write_expressions_section(
    writer: &mut BinFileWriter,
    expressions_info: &Vec<ExpsInfo>,
    numbers_exps: &Vec<String>,
    max_tmp1: u64,
    max_tmp3: u64,
    max_args: u64,
    max_ops: u64,
    section: u32,
) -> (r: Result<(), SetupError>)
    requires
        old(writer).section_start is None ==> old(writer).sections_written < u32::MAX,
        ops_total(expressions_info@, expressions_info@.len() as int) <= u32::MAX,
        args_total(expressions_info@, expressions_info@.len() as int) <= u32::MAX,
    ensures
        final(writer).n_sections == old(writer).n_sections,
        match r {
            Ok(()) => {
                &&& old(writer).section_start is None
                &&& final(writer).section_start is None
                &&& final(writer).sections_written == old(writer).sections_written + 1
                &&& final(writer).bytes@ == old(writer).bytes@ + section_bytes(
                    section,
                    expressions_payload(
                        expressions_info@,
                        strings_view(numbers_exps@),
                        BlockMaxima { max_tmp1, max_tmp3, max_args, max_ops },
                    ),
                )
            },
            Err(e) => {
                &&& old(writer).section_start is Some
                &&& e == SetupError::SectionAlreadyOpen
                &&& *final(writer) == *old(writer)
            },
        },
{
    let (o, a) = totals(expressions_info);
    let mut buf: Vec<u8> = Vec::new();
    push_u32(&mut buf, max_tmp1 as u32);
    push_u32(&mut buf, max_tmp3 as u32);
    push_u32(&mut buf, max_args as u32);
    push_u32(&mut buf, max_ops as u32);
    push_u32(&mut buf, o);
    push_u32(&mut buf, a);
    push_u32(&mut buf, numbers_exps.len() as u32);
    push_u32(&mut buf, expressions_info.len() as u32);
    blocks_bytes(&mut buf, expressions_info, false);
    numbers_bytes_exec(&mut buf, numbers_exps);
    proof {
        assert(strings_view(numbers_exps@).len() == numbers_exps@.len());
        assert(buf@ =~= expressions_payload(
            expressions_info@,
            strings_view(numbers_exps@),
            BlockMaxima { max_tmp1, max_tmp3, max_args, max_ops },
        ));
    }
    write_section(writer, section, &buf)
}

/// Writes the constraints section: the counts, one header per block (with
/// its rows), then the operations, arguments and numbers as for expressions.
pub fn write_constraints_section(
    writer: &mut BinFileWriter,
    constraints_info: &Vec<ExpsInfo>,
    numbers_constraints: &Vec<String>,
    section: u32,
) -> (r: Result<(), SetupError>)
    requires
        old(writer).section_start is None ==> old(writer).sections_written < u32::MAX,
        ops_total(constraints_info@, constraints_info@.len() as int) <= u32::MAX,
        args_total(constraints_info@, constraints_info@.len() as int) <= u32::MAX,
    ensures
        final(writer).n_sections == old(writer).n_sections,
        match r {
            Ok(()) => {
                &&& old(writer).section_start is None
                &&& final(writer).section_start is None
                &&& final(writer).sections_written == old(writer).sections_written + 1
                &&& final(writer).bytes@ == old(writer).bytes@ + section_bytes(
                    section,
                    constraints_payload(constraints_info@, strings_view(numbers_constraints@)),
                )
            },
            Err(e) => {
                &&& old(writer).section_start is Some
                &&& e == SetupError::SectionAlreadyOpen
                &&& *final(writer) == *old(writer)
            },
        },
{
    let (o, a) = totals(constraints_info);
    let mut buf: Vec<u8> = Vec::new();
    push_u32(&mut buf, o);
    push_u32(&mut buf, a);
    push_u32(&mut buf, numbers_constraints.len() as u32);
    push_u32(&mut buf, constraints_info.len() as u32);
    blocks_bytes(&mut buf, constraints_info, true);
    numbers_bytes_exec(&mut buf, numbers_constraints);
    proof {
        assert(strings_view(numbers_constraints@).len() == numbers_constraints@.len());
        assert(buf@ =~= constraints_payload(constraints_info@, strings_view(numbers_constraints@)));
    }
    write_section(writer, section, &buf)
}

/// Positions as 32-bit integers.
pub open spec fn pos_bytes(pos: Seq<u64>) -> Seq<u8>
    decreases pos.len(),
{
    if pos.len() == 0 { Seq::empty() } else { pos_bytes(pos.drop_last()) + w32(pos.last() as u32) }
}

/// The datum of a hint value: a number, a text, or an id.
pub open spec fn hint_datum(v: HintFieldValue) -> Seq<u8> {
    if v.op@ == "number"@ {
        le_bytes(v.value as nat, 8)
    } else if v.op@ == "string"@ {
        zstr(v.string_value@)
    } else {
        w32(v.id as u32)
    }
}

/// What a hint value adds for its kind: the opening index of a column, the
/// dimension of a temporary, the commit of a custom column.
pub open spec fn hint_extras(v: HintFieldValue) -> Seq<u8> {
    let op = v.op@;
    (if op == "custom"@ || op == "const"@ || op == "cm"@ {
        w32(v.row_offset_index as u32)
    } else {
        Seq::empty()
    }) + (if op == "tmp"@ { w32(v.dim as u32) } else { Seq::empty() }) + (if op == "custom"@ {
        w32(v.commit_id as u32)
    } else {
        Seq::empty()
    })
}

/// A hint value: its kind, its datum and extras, and its position.
pub open spec fn hint_value_bytes(v: HintFieldValue) -> Seq<u8> {
    zstr(v.op@) + hint_datum(v) + hint_extras(v) + w32(v.pos@.len() as u32) + pos_bytes(v.pos@)
}

/// The first `k` values of a field.
pub open spec fn values_bytes(vs: Seq<HintFieldValue>, k: int) -> Seq<u8>
    decreases k,
{
    if k <= 0 { Seq::empty() } else { values_bytes(vs, k - 1) + hint_value_bytes(vs[k - 1]) }
}

/// A hint field: its name, its number of values and the values.
pub open spec fn field_bytes(f: HintField) -> Seq<u8> {
    zstr(f.name@) + w32(f.values@.len() as u32) + values_bytes(f.values@, f.values@.len() as int)
}

/// The first `k` fields of a hint.
pub open spec fn fields_bytes(fs: Seq<HintField>, k: int) -> Seq<u8>
    decreases k,
{
    if k <= 0 { Seq::empty() } else { fields_bytes(fs, k - 1) + field_bytes(fs[k - 1]) }
}

/// A hint: its name, its number of fields and the fields.
pub open spec fn hint_bytes(h: Hint) -> Seq<u8> {
    zstr(h.name@) + w32(h.fields@.len() as u32) + fields_bytes(h.fields@, h.fields@.len() as int)
}

/// The first `k` hints.
pub open spec fn hints_bytes(hs: Seq<Hint>, k: int) -> Seq<u8>
    decreases k,
{
    if k <= 0 { Seq::empty() } else { hints_bytes(hs, k - 1) + hint_bytes(hs[k - 1]) }
}

/// The payload of a hints section.
pub open spec fn hints_payload(hs: Seq<Hint>) -> Seq<u8> {
    w32(hs.len() as u32) + hints_bytes(hs, hs.len() as int)
}

fn push_hint_datum(buf: &mut Vec<u8>, v: &HintFieldValue)
    ensures
        final(buf)@ == old(buf)@ + hint_datum(*v),
{
    let op = v.op.as_str();
    if str_is(op, "number") {
        let lb = le_bytes_exec(v.value, 8);
        push_all(buf, lb.as_slice());
    } else if str_is(op, "string") {
        push_zstr(buf, v.string_value.as_str());
    } else {
        push_u32(buf, v.id as u32);
    }
}

fn push_hint_extras(buf: &mut Vec<u8>, v: &HintFieldValue)
    ensures
        final(buf)@ == old(buf)@ + hint_extras(*v),
{
    let op = v.op.as_str();
    let ghost b0 = buf@;
    let is_custom = str_is(op, "custom");
    let col = is_custom || str_is(op, "const") || str_is(op, "cm");
    if col {
        push_u32(buf, v.row_offset_index as u32);
    }
    let ghost b1 = buf@;
    let tmp = str_is(op, "tmp");
    if tmp {
        push_u32(buf, v.dim as u32);
    }
    let ghost b2 = buf@;
    if is_custom {
        push_u32(buf, v.commit_id as u32);
    }
    proof {
        assert(b1 =~= b0 + (if col { w32(v.row_offset_index as u32) } else { Seq::empty() }));
        assert(b2 =~= b1 + (if tmp { w32(v.dim as u32) } else { Seq::empty() }));
        assert(buf@ =~= b2 + (if is_custom { w32(v.commit_id as u32) } else { Seq::empty() }));
        assert(buf@ =~= old(buf)@ + hint_extras(*v));
    }
}

fn push_hint_value(buf: &mut Vec<u8>, v: &HintFieldValue)
    ensures
        final(buf)@ == old(buf)@ + hint_value_bytes(*v),
{
    push_zstr(buf, v.op.as_str());
    push_hint_datum(buf, v);
    push_hint_extras(buf, v);
    push_u32(buf, v.pos.len() as u32);
    let ghost b2 = buf@;
    let mut k: usize = 0;
    while k < v.pos.len()
        invariant
            k <= v.pos@.len(),
            buf@ == b2 + pos_bytes(v.pos@.subrange(0, k as int)),
        decreases v.pos.len() - k,
    {
        push_u32(buf, v.pos[k] as u32);
        proof {
            assert(v.pos@.subrange(0, k as int + 1).drop_last() =~= v.pos@.subrange(0, k as int));
        }
        k = k + 1;
    }
    proof {
        assert(v.pos@.subrange(0, v.pos@.len() as int) =~= v.pos@);
        assert(buf@ =~= old(buf)@ + hint_value_bytes(*v));
    }
}

fn push_field(buf: &mut Vec<u8>, f: &HintField)
    ensures
        final(buf)@ == old(buf)@ + field_bytes(*f),
{
    push_zstr(buf, f.name.as_str());
    push_u32(buf, f.values.len() as u32);
    let ghost b1 = buf@;
    let mut k: usize = 0;
    while k < f.values.len()
        invariant
            k <= f.values@.len(),
            buf@ == b1 + values_bytes(f.values@, k as int),
        decreases f.values.len() - k,
    {
        push_hint_value(buf, &f.values[k]);
        k = k + 1;
    }
    proof {
        assert(buf@ =~= old(buf)@ + field_bytes(*f));
    }
}

fn push_hint(buf: &mut Vec<u8>, h: &Hint)
    ensures
        final(buf)@ == old(buf)@ + hint_bytes(*h),
{
    push_zstr(buf, h.name.as_str());
    push_u32(buf, h.fields.len() as u32);
    let ghost b1 = buf@;
    let mut k: usize = 0;
    while k < h.fields.len()
        invariant
            k <= h.fields@.len(),
            buf@ == b1 + fields_bytes(h.fields@, k as int),
        decreases h.fields.len() - k,
    {
        push_field(buf, &h.fields[k]);
        k = k + 1;
    }
    proof {
        assert(buf@ =~= old(buf)@ + hint_bytes(*h));
    }
}

/// Writes the hints section: the number of hints, then each hint's name
/// and fields, each field's name and values.
pub fn write_hints_section(writer: &mut BinFileWriter, hints_info: &Vec<Hint>, section: u32) -> (r: Result<(), SetupError>)
    requires
        old(writer).section_start is None ==> old(writer).sections_written < u32::MAX,
    ensures
        final(writer).n_sections == old(writer).n_sections,
        match r {
            Ok(()) => {
                &&& old(writer).section_start is None
                &&& final(writer).section_start is None
                &&& final(writer).sections_written == old(writer).sections_written + 1
                &&& final(writer).bytes@ == old(writer).bytes@ + section_bytes(section, hints_payload(hints_info@))
            },
            Err(e) => {
                &&& old(writer).section_start is Some
                &&& e == SetupError::SectionAlreadyOpen
                &&& *final(writer) == *old(writer)
            },
        },
{
    let mut buf: Vec<u8> = Vec::new();
    push_u32(&mut buf, hints_info.len() as u32);
    let ghost b1 = buf@;
    let mut k: usize = 0;
    while k < hints_info.len()
        invariant
            k <= hints_info@.len(),
            buf@ == b1 + hints_bytes(hints_info@, k as int),
        decreases hints_info.len() - k,
    {
        push_hint(&mut buf, &hints_info[k]);
        k = k + 1;
    }
    proof {
        assert(buf@ =~= hints_payload(hints_info@));
    }
    write_section(writer, section, &buf)
}

} // verus!
