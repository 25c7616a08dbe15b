//! The Rust source of a STARK verifier: the constraint and FRI query checks
//! as straight-line code, and the verifier's parameters.
use vstd::prelude::*;
use crate::error::SetupError;
use crate::parser_args::{encode_code, get_parser_args, parser_args_ok, slot_map, strings_view, verify_body};
use crate::stark_info::{Boundary, CodeOperation, EvMap, PolMap, StarkInfo, VerifierInfo};
use crate::text::{concat, decimal, owned, signed_decimal, str_is, u64_to_decimal, i64_to_decimal};

verus! {

/// The lines `ls` separated by `sep`.
pub open spec fn join_lines(ls: Seq<Seq<char>>, sep: Seq<char>) -> Seq<char>
    decreases ls.len(),
{
    if ls.len() == 0 {
        Seq::empty()
    } else if ls.len() == 1 {
        ls[0]
    } else {
        join_lines(ls.drop_last(), sep) + sep + ls.last()
    }
}

/// The error that encoding `code` for the verifier meets, if any.
pub open spec fn verifier_code_error(si: StarkInfo, code: Seq<CodeOperation>) -> Option<SetupError> {
    let buffer = 1 + si.n_stages + 3 + si.custom_commits@.len();
    let enc = encode_code(si, code, code.len() as int, true, buffer, slot_map(code, 1), slot_map(code, 3), Seq::empty(),
        false, None).0;
    match enc {
        Err(e) => Some(e),
        Ok(_) => if code.last().dest.dim == 1 || code.last().dest.dim == 3 {
            None
        } else {
            Some(SetupError::UnknownDestinationDimension)
        },
    }
}

/// `"true"` or `"false"`.
pub open spec fn bool_text(b: bool) -> Seq<char> {
    if b { "true"@ } else { "false"@ }
}

/// A number, or `None`.
pub open spec fn opt_text(o: Option<u64>) -> Seq<char> {
    match o {
        Some(v) => decimal(v as nat),
        None => "None"@,
    }
}

/// The column count of section `key`: that of its first entry, 0 without one.
pub open spec fn section_count(m: Seq<(String, u64)>, key: Seq<char>, i: int) -> u64
    decreases m.len() - i,
{
    if i < 0 || i >= m.len() {
        0
    } else if m[i].0@ == key {
        m[i].1
    } else {
        section_count(m, key, i + 1)
    }
}

/// The first committed column of stage `stage` with stage position 0, from `i` on.
pub open spec fn find_q_pol(m: Seq<PolMap>, stage: int, i: int) -> Option<int>
    decreases m.len() - i,
{
    if i < 0 || i >= m.len() {
        None
    } else if m[i].stage == stage && m[i].stage_id == 0 {
        Some(i)
    } else {
        find_q_pol(m, stage, i + 1)
    }
}

/// The first evaluation of committed column `id`, from `i` on (0 when none).
pub open spec fn find_cm_eval(e: Seq<EvMap>, id: int, i: int) -> int
    decreases e.len() - i,
{
    if i < 0 || i >= e.len() {
        0
    } else if e[i].ev_type@ == "cm"@ && e[i].id == id {
        i
    } else {
        find_cm_eval(e, id, i + 1)
    }
}

/// The evaluation of the first quotient column.
pub open spec fn q_eval_index(si: StarkInfo) -> int {
    match find_q_pol(si.cm_pols_map@, si.n_stages + 1, 0) {
        Some(qi) => find_cm_eval(si.ev_map@, qi, 0),
        None => 0,
    }
}

/// `"        name: value,"`.
pub open spec fn field_line(name: Seq<char>, value: Seq<char>) -> Seq<char> {
    "        "@ + name + ": "@ + value + ","@
}

/// `"vec![a, b, ...]"`.
pub open spec fn vec_text(items: Seq<Seq<char>>) -> Seq<char> {
    "vec!["@ + join_lines(items, ", "@) + "]"@
}

/// A boundary as a Rust constructor.
pub open spec fn boundary_text(b: Boundary) -> Seq<char> {
    "Boundary { name: \""@ + b.name@ + "\".to_string(), offset_min: "@ + opt_text(b.offset_min) + ", offset_max: "@
        + opt_text(b.offset_max) + " }"@
}

/// The parameter lines of `verifier_info()`.
pub open spec fn info_fields(si: StarkInfo) -> Seq<Seq<char>> {
    let ss = si.stark_struct;
    seq![
        field_line("n_stages"@, decimal(si.n_stages as nat)),
        field_line("n_constants"@, decimal(si.n_constants as nat)),
        field_line("n_evals"@, decimal(si.ev_map@.len())),
        field_line("n_bits"@, decimal(ss.n_bits as nat)),
        field_line("n_bits_ext"@, decimal(ss.n_bits_ext as nat)),
        field_line("arity"@, decimal(ss.merkle_tree_arity as nat)),
        field_line("n_fri_queries"@, decimal(ss.n_queries as nat)),
        field_line("n_fri_steps"@, decimal(ss.steps@.len())),
        field_line("n_challenges"@, decimal(si.challenges_map@.len())),
        field_line("n_challenges_total"@, decimal(si.challenges_map@.len() + ss.steps@.len() + 1)),
        field_line("fri_steps"@, vec_text(Seq::new(ss.steps@.len(), |i: int| decimal(ss.steps@[i].n_bits as nat)))),
        field_line("hash_commits"@, bool_text(ss.hash_commits)),
        field_line("last_level_verification"@, decimal(ss.last_level_verification as nat)),
        field_line("pow_bits"@, decimal(ss.pow_bits as nat)),
        field_line("num_vals"@, vec_text(Seq::new((si.n_stages + 1) as nat, |i: int| decimal(
            section_count(si.map_sections_n@, "cm"@ + decimal((i + 1) as nat), 0) as nat)))),
        field_line("opening_points"@, vec_text(Seq::new(si.opening_points@.len(), |i: int| signed_decimal(
            si.opening_points@[i] as int)))),
        field_line("boundaries"@, vec_text(Seq::new(si.boundaries@.len(), |i: int| boundary_text(si.boundaries@[i])))),
        field_line("q_deg"@, decimal(si.q_deg as nat)),
        field_line("q_index"@, decimal(q_eval_index(si) as nat)),
    ]
}

/// The signature of the constraint check.
pub open spec fn q_signature() -> Seq<char> {
    "fn q_verify(challenges: &[CubicExtensionField<Goldilocks>], evals: &[CubicExtensionField<Goldilocks>], _publics: &[Goldilocks], zi: &[CubicExtensionField<Goldilocks>]) -> CubicExtensionField<Goldilocks> {"@
}

/// The signature of the FRI query check.
pub open spec fn query_signature() -> Seq<char> {
    "fn query_verify(challenges: &[CubicExtensionField<Goldilocks>], evals: &[CubicExtensionField<Goldilocks>], vals: &[Vec<Goldilocks>], xdivxsub: &[CubicExtensionField<Goldilocks>]) -> CubicExtensionField<Goldilocks> {"@
}

/// The lines of the verifier source, for the given bodies of the two checks.
pub open spec fn verifier_lines(si: StarkInfo, q_body: Seq<Seq<char>>, query_body: Seq<Seq<char>>) -> Seq<Seq<char>> {
    let w = decimal((si.stark_struct.merkle_tree_arity * 4) as nat);
    seq![
        "use fields::{Goldilocks, CubicExtensionField, Field, Poseidon"@ + w + "};"@,
        "use crate::{Boundary, VerifierInfo, stark_verify};\n"@,
        "#[rustfmt::skip]"@,
        "#[allow(clippy::all)]"@,
        q_signature(),
    ] + q_body + seq!["}"@, Seq::empty(), "#[rustfmt::skip]"@, "#[allow(clippy::all)]"@, query_signature()] + query_body
        + seq!["}\n"@, "#[rustfmt::skip]"@, "fn verifier_info() -> VerifierInfo {"@, "    VerifierInfo {"@] + info_fields(si)
        + seq![
        "    }"@,
        "}\n"@,
        "pub fn verify(proof: &[u8], vk: &[u8]) -> bool {"@,
        "    stark_verify::<Poseidon"@ + w + ", "@ + w + ">(proof, vk, &verifier_info(), q_verify, query_verify)"@,
        "}\n"@,
    ]
}

/// The verifier source.
pub open spec fn verifier_source(si: StarkInfo, vi: VerifierInfo) -> Seq<char> {
    join_lines(
        verifier_lines(si, verify_body(vi.q_verifier.code@, si), verify_body(vi.query_verifier.code@, si)),
        "\n"@,
    )
}

/// The strings of `v` separated by `sep`.
fn join_strings(v: &Vec<String>, sep: &str) -> (s: String)
    ensures
        s@ == join_lines(strings_view(v@), sep@),
{
    if v.len() == 0 {
        return String::new();
    }
    let mut s = owned(v[0].as_str());
    let mut i: usize = 1;
    proof {
        assert(strings_view(v@).subrange(0, 1) =~= seq![v@[0]@]);
    }
    while i < v.len()
        invariant
            1 <= i <= v@.len(),
            s@ == join_lines(strings_view(v@).subrange(0, i as int), sep@),
        decreases v.len() - i,
    {
        s.append(sep);
        s.append(v[i].as_str());
        proof {
            let t = strings_view(v@).subrange(0, i as int + 1);
            assert(t.drop_last() =~= strings_view(v@).subrange(0, i as int));
            assert(t.last() == v@[i as int]@);
        }
        i = i + 1;
    }
    proof {
        assert(strings_view(v@).subrange(0, v@.len() as int) =~= strings_view(v@));
    }
    s
}

/// `a`, then `b`, then `c`.
fn cat3(a: &str, b: &str, c: &str) -> (s: String)
    ensures
        s@ == a@ + b@ + c@,
{
    let mut s = concat(a, b);
    s.append(c);
    s
}

/// `"        name: value,"`.
fn field_line_exec(name: &str, value: &str) -> (s: String)
    ensures
        s@ == field_line(name@, value@),
{
    let mut s = cat3("        ", name, ": ");
    s.append(value);
    s.append(",");
    s
}

/// `"vec![a, b, ...]"`.
fn vec_text_exec(items: &Vec<String>) -> (s: String)
    ensures
        s@ == vec_text(strings_view(items@)),
{
    let j = join_strings(items, ", ");
    cat3("vec![", j.as_str(), "]")
}

fn opt_text_exec(o: Option<u64>) -> (s: String)
    ensures
        s@ == opt_text(o),
{
    match o {
        Some(v) => u64_to_decimal(v),
        None => owned("None"),
    }
}

/// The column count of a section (0 when it is not listed).
pub(crate) fn section_count_exec(m: &Vec<(String, u64)>, key: &str) -> (r: u64)
    ensures
        r == section_count(m@, key@, 0),
{
    let mut i: usize = 0;
    while i < m.len()
        invariant
            i <= m@.len(),
            section_count(m@, key@, 0) == section_count(m@, key@, i as int),
        decreases m.len() - i,
    {
        if str_is(m[i].0.as_str(), key) {
            return m[i].1;
        }
        i = i + 1;
    }
    0
}

fn q_eval_index_exec(si: &StarkInfo) -> (r: u64)
    requires
        si.n_stages < u64::MAX,
    ensures
        r == q_eval_index(*si),
{
    let stage = si.n_stages + 1;
    let mut i: usize = 0;
    let mut found: Option<usize> = None;
    while i < si.cm_pols_map.len() && found.is_none()
        invariant
            i <= si.cm_pols_map@.len(),
            stage == si.n_stages + 1,
            match found {
                Some(q) => find_q_pol(si.cm_pols_map@, stage as int, 0) == Some(q as int),
                None => find_q_pol(si.cm_pols_map@, stage as int, 0) == find_q_pol(si.cm_pols_map@, stage as int, i as int),
            },
        decreases si.cm_pols_map.len() - i + (if found is None { 1int } else { 0int }),
    {
        if si.cm_pols_map[i].stage == stage && si.cm_pols_map[i].stage_id == 0 {
            found = Some(i);
        } else {
            i = i + 1;
        }
    }
    match found {
        None => 0,
        Some(qi) => {
            let mut j: usize = 0;
            while j < si.ev_map.len()
                invariant
                    j <= si.ev_map@.len(),
                    find_q_pol(si.cm_pols_map@, si.n_stages + 1, 0) == Some(qi as int),
                    find_cm_eval(si.ev_map@, qi as int, 0) == find_cm_eval(si.ev_map@, qi as int, j as int),
                decreases si.ev_map.len() - j,
            {
                if str_is(si.ev_map[j].ev_type.as_str(), "cm") && si.ev_map[j].id == qi as u64 {
                    proof {
                        assert(find_cm_eval(si.ev_map@, qi as int, j as int) == j);
                    }
                    return j as u64;
                }
                j = j + 1;
            }
            0
        },
    }
}

/// Appends `s` to `lines`.
fn push_line(lines: &mut Vec<String>, s: String)
    ensures
        strings_view(final(lines)@) == strings_view(old(lines)@).push(s@),
{
    let ghost o = lines@;
    lines.push(s);
    proof {
        assert(strings_view(lines@) =~= strings_view(o).push(s@));
    }
}

/// Appends copies of `more` to `lines`.
fn push_lines(lines: &mut Vec<String>, more: &Vec<String>)
    ensures
        strings_view(final(lines)@) == strings_view(old(lines)@) + strings_view(more@),
{
    let ghost o = strings_view(lines@);
    let mut i: usize = 0;
    while i < more.len()
        invariant
            i <= more@.len(),
            strings_view(lines@) == o + strings_view(more@).subrange(0, i as int),
        decreases more.len() - i,
    {
        push_line(lines, owned(more[i].as_str()));
        proof {
            assert(strings_view(more@).subrange(0, i as int + 1) =~= strings_view(more@).subrange(0, i as int).push(
                more@[i as int]@));
        }
        i = i + 1;
    }
    proof {
        assert(strings_view(more@).subrange(0, more@.len() as int) =~= strings_view(more@));
    }
}

/// The parameter lines of `verifier_info()`.
fn info_fields_exec(si: &StarkInfo) -> (r: Vec<String>)
    requires
        si.n_stages < u64::MAX,
        si.challenges_map@.len() + si.stark_struct.steps@.len() + 1 <= usize::MAX,
    ensures
        strings_view(r@) == info_fields(*si),
{
    let ss = &si.stark_struct;
    let mut r: Vec<String> = Vec::new();
    push_line(&mut r, field_line_exec("n_stages", u64_to_decimal(si.n_stages).as_str()));
    push_line(&mut r, field_line_exec("n_constants", u64_to_decimal(si.n_constants).as_str()));
    push_line(&mut r, field_line_exec("n_evals", u64_to_decimal(si.ev_map.len() as u64).as_str()));
    push_line(&mut r, field_line_exec("n_bits", u64_to_decimal(ss.n_bits).as_str()));
    push_line(&mut r, field_line_exec("n_bits_ext", u64_to_decimal(ss.n_bits_ext).as_str()));
    push_line(&mut r, field_line_exec("arity", u64_to_decimal(ss.merkle_tree_arity).as_str()));
    push_line(&mut r, field_line_exec("n_fri_queries", u64_to_decimal(ss.n_queries).as_str()));
    push_line(&mut r, field_line_exec("n_fri_steps", u64_to_decimal(ss.steps.len() as u64).as_str()));
    push_line(&mut r, field_line_exec("n_challenges", u64_to_decimal(si.challenges_map.len() as u64).as_str()));
    let total: usize = si.challenges_map.len() + ss.steps.len() + 1;
    push_line(&mut r, field_line_exec("n_challenges_total", u64_to_decimal(total as u64).as_str()));

    let mut steps: Vec<String> = Vec::new();
    let mut k: usize = 0;
    while k < ss.steps.len()
        invariant
            k <= ss.steps@.len(),
            strings_view(steps@) =~= Seq::new(k as nat, |i: int| decimal(ss.steps@[i].n_bits as nat)),
        decreases ss.steps.len() - k,
    {
        push_line(&mut steps, u64_to_decimal(ss.steps[k].n_bits));
        k = k + 1;
    }
    push_line(&mut r, field_line_exec("fri_steps", vec_text_exec(&steps).as_str()));
    let hc = if ss.hash_commits { "true" } else { "false" };
    push_line(&mut r, field_line_exec("hash_commits", hc));
    push_line(&mut r, field_line_exec("last_level_verification", u64_to_decimal(ss.last_level_verification).as_str()));
    push_line(&mut r, field_line_exec("pow_bits", u64_to_decimal(ss.pow_bits).as_str()));

    let mut vals: Vec<String> = Vec::new();
    let mut st: u64 = 0;
    while st < si.n_stages + 1
        invariant
            st <= si.n_stages + 1,
            si.n_stages < u64::MAX,
            strings_view(vals@) =~= Seq::new(st as nat, |i: int| decimal(
                section_count(si.map_sections_n@, "cm"@ + decimal((i + 1) as nat), 0) as nat)),
        decreases si.n_stages + 1 - st,
    {
        let key = concat("cm", u64_to_decimal(st + 1).as_str());
        let v = section_count_exec(&si.map_sections_n, key.as_str());
        push_line(&mut vals, u64_to_decimal(v));
        st = st + 1;
    }
    push_line(&mut r, field_line_exec("num_vals", vec_text_exec(&vals).as_str()));

    let mut pts: Vec<String> = Vec::new();
    let mut k: usize = 0;
    while k < si.opening_points.len()
        invariant
            k <= si.opening_points@.len(),
            strings_view(pts@) =~= Seq::new(k as nat, |i: int| signed_decimal(si.opening_points@[i] as int)),
        decreases si.opening_points.len() - k,
    {
        push_line(&mut pts, i64_to_decimal(si.opening_points[k]));
        k = k + 1;
    }
    push_line(&mut r, field_line_exec("opening_points", vec_text_exec(&pts).as_str()));

    let mut bs: Vec<String> = Vec::new();
    let mut k: usize = 0;
    while k < si.boundaries.len()
        invariant
            k <= si.boundaries@.len(),
            strings_view(bs@) =~= Seq::new(k as nat, |i: int| boundary_text(si.boundaries@[i])),
        decreases si.boundaries.len() - k,
    {
        let b = &si.boundaries[k];
        let mut t = cat3("Boundary { name: \"", b.name.as_str(), "\".to_string(), offset_min: ");
        t.append(opt_text_exec(b.offset_min).as_str());
        t.append(", offset_max: ");
        t.append(opt_text_exec(b.offset_max).as_str());
        t.append(" }");
        push_line(&mut bs, t);
        k = k + 1;
    }
    push_line(&mut r, field_line_exec("boundaries", vec_text_exec(&bs).as_str()));
    push_line(&mut r, field_line_exec("q_deg", u64_to_decimal(si.q_deg).as_str()));
    push_line(&mut r, field_line_exec("q_index", u64_to_decimal(q_eval_index_exec(si)).as_str()));
    proof {
        assert(strings_view(r@) =~= info_fields(*si));
    }
    r
}

/// The verifier's lines of `code`, or the error its encoding meets.
fn verifier_code_lines(si: &StarkInfo, code: &Vec<CodeOperation>) -> (r: Result<Vec<String>, SetupError>)
    requires
        parser_args_ok(*si, code@, false, true, None),
    ensures
        match r {
            Ok(v) => verifier_code_error(*si, code@) is None && strings_view(v@) == verify_body(code@, *si),
            Err(e) => verifier_code_error(*si, code@) == Some(e),
        },
{
    let mut numbers: Vec<String> = Vec::new();
    proof {
        assert(strings_view(numbers@) =~= Seq::<Seq<char>>::empty());
    }
    match get_parser_args(si, code.as_slice(), &mut numbers, false, true, None) {
        Ok(p) => Ok(p.verify_rust),
        Err(e) => Err(e),
    }
}

/// The lines of the verifier source around the bodies of the two checks.
#[verifier::rlimit(30)]
fn verifier_lines_exec(si: &StarkInfo, q_lines: &Vec<String>, fri_lines: &Vec<String>) -> (lines: Vec<String>)
    requires
        si.n_stages < u64::MAX,
        si.stark_struct.merkle_tree_arity <= u64::MAX / 4,
        si.challenges_map@.len() + si.stark_struct.steps@.len() + 1 <= usize::MAX,
    ensures
        strings_view(lines@) == verifier_lines(*si, strings_view(q_lines@), strings_view(fri_lines@)),
{
    let width = si.stark_struct.merkle_tree_arity * 4;
    let w = u64_to_decimal(width);
    let mut lines: Vec<String> = Vec::new();
    push_line(&mut lines, cat3("use fields::{Goldilocks, CubicExtensionField, Field, Poseidon", w.as_str(), "};"));
    push_line(&mut lines, owned("use crate::{Boundary, VerifierInfo, stark_verify};\n"));
    push_line(&mut lines, owned("#[rustfmt::skip]"));
    push_line(&mut lines, owned("#[allow(clippy::all)]"));
    push_line(&mut lines, owned("fn q_verify(challenges: &[CubicExtensionField<Goldilocks>], evals: &[CubicExtensionField<Goldilocks>], _publics: &[Goldilocks], zi: &[CubicExtensionField<Goldilocks>]) -> CubicExtensionField<Goldilocks> {"));
    let ghost g1 = strings_view(lines@);
    push_lines(&mut lines, q_lines);
    let ghost g2 = strings_view(lines@);
    push_line(&mut lines, owned("}"));
    push_line(&mut lines, String::new());
    push_line(&mut lines, owned("#[rustfmt::skip]"));
    push_line(&mut lines, owned("#[allow(clippy::all)]"));
    push_line(&mut lines, owned("fn query_verify(challenges: &[CubicExtensionField<Goldilocks>], evals: &[CubicExtensionField<Goldilocks>], vals: &[Vec<Goldilocks>], xdivxsub: &[CubicExtensionField<Goldilocks>]) -> CubicExtensionField<Goldilocks> {"));
    let ghost g3 = strings_view(lines@);
    push_lines(&mut lines, fri_lines);
    let ghost g4 = strings_view(lines@);
    push_line(&mut lines, owned("}\n"));
    push_line(&mut lines, owned("#[rustfmt::skip]"));
    push_line(&mut lines, owned("fn verifier_info() -> VerifierInfo {"));
    push_line(&mut lines, owned("    VerifierInfo {"));
    let ghost g5 = strings_view(lines@);
    let fields = info_fields_exec(si);
    push_lines(&mut lines, &fields);
    let ghost g6 = strings_view(lines@);
    push_line(&mut lines, owned("    }"));
    push_line(&mut lines, owned("}\n"));
    push_line(&mut lines, owned("pub fn verify(proof: &[u8], vk: &[u8]) -> bool {"));
    let mut call = cat3("    stark_verify::<Poseidon", w.as_str(), ", ");
    call.append(w.as_str());
    call.append(">(proof, vk, &verifier_info(), q_verify, query_verify)");
    push_line(&mut lines, call);
    push_line(&mut lines, owned("}\n"));
    proof {
        let wd = decimal((si.stark_struct.merkle_tree_arity * 4) as nat);
        assert(g1 =~= seq![
            "use fields::{Goldilocks, CubicExtensionField, Field, Poseidon"@ + wd + "};"@,
            "use crate::{Boundary, VerifierInfo, stark_verify};\n"@,
            "#[rustfmt::skip]"@,
            "#[allow(clippy::all)]"@,
            q_signature(),
        ]);
        assert(g3 =~= g2 + seq!["}"@, Seq::empty(), "#[rustfmt::skip]"@, "#[allow(clippy::all)]"@, query_signature()]);
        assert(g5 =~= g4 + seq!["}\n"@, "#[rustfmt::skip]"@, "fn verifier_info() -> VerifierInfo {"@, "    VerifierInfo {"@]);
        assert(strings_view(lines@) =~= g6 + seq![
            "    }"@,
            "}\n"@,
            "pub fn verify(proof: &[u8], vk: &[u8]) -> bool {"@,
            "    stark_verify::<Poseidon"@ + wd + ", "@ + wd + ">(proof, vk, &verifier_info(), q_verify, query_verify)"@,
            "}\n"@,
        ]);
    }
    lines
}

/// The Rust source of the verifier: `q_verify` and `query_verify` from the
/// verifier's code, `verifier_info` with the parameters of the STARK, and
/// `verify`. Fails as the encoding of either code fails.
pub fn prepare_verifier_rust(stark_info: &StarkInfo, verifier_info: &VerifierInfo) -> (r: Result<String, SetupError>)
    requires
        parser_args_ok(*stark_info, verifier_info.q_verifier.code@, false, true, None),
        parser_args_ok(*stark_info, verifier_info.query_verifier.code@, false, true, None),
        stark_info.n_stages < u64::MAX,
        stark_info.stark_struct.merkle_tree_arity <= u64::MAX / 4,
        stark_info.challenges_map@.len() + stark_info.stark_struct.steps@.len() + 1 <= usize::MAX,
    ensures
        match r {
            Ok(s) => {
                &&& verifier_code_error(*stark_info, verifier_info.q_verifier.code@) is None
                &&& verifier_code_error(*stark_info, verifier_info.query_verifier.code@) is None
                &&& s@ == verifier_source(*stark_info, *verifier_info)
            },
            Err(e) => match verifier_code_error(*stark_info, verifier_info.q_verifier.code@) {
                Some(e1) => e == e1,
                None => verifier_code_error(*stark_info, verifier_info.query_verifier.code@) == Some(e),
            },
        },
{
    let q_lines = match verifier_code_lines(stark_info, &verifier_info.q_verifier.code) {
        Ok(v) => v,
        Err(e) => {
            return Err(e);
        },
    };
    let fri_lines = match verifier_code_lines(stark_info, &verifier_info.query_verifier.code) {
        Ok(v) => v,
        Err(e) => {
            return Err(e);
        },
    };
    let lines = verifier_lines_exec(stark_info, &q_lines, &fri_lines);
    Ok(join_strings(&lines, "\n"))
}

} // verus!
