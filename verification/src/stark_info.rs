//! The data read back from starkinfo / expressionsinfo / verifierinfo:
//! operand types, code operations, polynomial maps.
use vstd::prelude::*;
use vstd::string::*;
use crate::error::SetupError;
use crate::text::str_is;

verus! {

/// Operand type of a code operation.
#[derive(Debug, Clone, Copy, PartialEq, Eq, Structural)]
pub enum OpType {
    Const,
    Cm,
    Tmp,
    Public,
    Airgroupvalue,
    Challenge,
    Number,
    StringVal,
    Airvalue,
    Proofvalue,
    Custom,
    X,
    Zi,
    Eval,
    XDivXSubXi,
    Q,
    F,
}

/// The name of an operand type.
pub open spec fn op_type_name(t: OpType) -> Seq<char> {
    match t {
        OpType::Const => "const"@,
        OpType::Cm => "cm"@,
        OpType::Tmp => "tmp"@,
        OpType::Public => "public"@,
        OpType::Airgroupvalue => "airgroupvalue"@,
        OpType::Challenge => "challenge"@,
        OpType::Number => "number"@,
        OpType::StringVal => "string"@,
        OpType::Airvalue => "airvalue"@,
        OpType::Proofvalue => "proofvalue"@,
        OpType::Custom => "custom"@,
        OpType::X => "x"@,
        OpType::Zi => "Zi"@,
        OpType::Eval => "eval"@,
        OpType::XDivXSubXi => "xDivXSubXi"@,
        OpType::Q => "q"@,
        OpType::F => "f"@,
    }
}

/// Every operand type, in declaration order.
pub open spec fn all_op_types() -> Seq<OpType> {
    seq![
        OpType::Const,
        OpType::Cm,
        OpType::Tmp,
        OpType::Public,
        OpType::Airgroupvalue,
        OpType::Challenge,
        OpType::Number,
        OpType::StringVal,
        OpType::Airvalue,
        OpType::Proofvalue,
        OpType::Custom,
        OpType::X,
        OpType::Zi,
        OpType::Eval,
        OpType::XDivXSubXi,
        OpType::Q,
        OpType::F,
    ]
}

impl Default for OpType {
    fn default() -> (t: OpType)
        ensures
            t == OpType::Tmp,
    {
        OpType::Tmp
    }
}

impl OpType {
    /// Parse an operand type from its name.
    pub fn parse(s: &str) -> (r: Result<OpType, SetupError>)
        ensures
            match r {
                Ok(t) => op_type_name(t) == s@,
                Err(e) => e == SetupError::UnknownOpType && forall|t: OpType| op_type_name(t) != s@,
            },
    {
        proof {
            reveal_strlit("const");
            reveal_strlit("cm");
            reveal_strlit("tmp");
            reveal_strlit("public");
            reveal_strlit("airgroupvalue");
            reveal_strlit("challenge");
            reveal_strlit("number");
            reveal_strlit("string");
            reveal_strlit("airvalue");
            reveal_strlit("proofvalue");
            reveal_strlit("custom");
            reveal_strlit("x");
            reveal_strlit("Zi");
            reveal_strlit("eval");
            reveal_strlit("xDivXSubXi");
            reveal_strlit("q");
            reveal_strlit("f");
        }
        if str_is(s, "const") {
            Ok(OpType::Const)
        } else if str_is(s, "cm") {
            Ok(OpType::Cm)
        } else if str_is(s, "tmp") {
            Ok(OpType::Tmp)
        } else if str_is(s, "public") {
            Ok(OpType::Public)
        } else if str_is(s, "airgroupvalue") {
            Ok(OpType::Airgroupvalue)
        } else if str_is(s, "challenge") {
            Ok(OpType::Challenge)
        } else if str_is(s, "number") {
            Ok(OpType::Number)
        } else if str_is(s, "string") {
            Ok(OpType::StringVal)
        } else if str_is(s, "airvalue") {
            Ok(OpType::Airvalue)
        } else if str_is(s, "proofvalue") {
            Ok(OpType::Proofvalue)
        } else if str_is(s, "custom") {
            Ok(OpType::Custom)
        } else if str_is(s, "x") {
            Ok(OpType::X)
        } else if str_is(s, "Zi") {
            Ok(OpType::Zi)
        } else if str_is(s, "eval") {
            Ok(OpType::Eval)
        } else if str_is(s, "xDivXSubXi") {
            Ok(OpType::XDivXSubXi)
        } else if str_is(s, "q") {
            Ok(OpType::Q)
        } else if str_is(s, "f") {
            Ok(OpType::F)
        } else {
            Err(SetupError::UnknownOpType)
        }
    }

    /// The name of this operand type.
    pub fn to_str(self) -> (s: &'static str)
        ensures
            s@ == op_type_name(self),
    {
        match self {
            OpType::Const => "const",
            OpType::Cm => "cm",
            OpType::Tmp => "tmp",
            OpType::Public => "public",
            OpType::Airgroupvalue => "airgroupvalue",
            OpType::Challenge => "challenge",
            OpType::Number => "number",
            OpType::StringVal => "string",
            OpType::Airvalue => "airvalue",
            OpType::Proofvalue => "proofvalue",
            OpType::Custom => "custom",
            OpType::X => "x",
            OpType::Zi => "Zi",
            OpType::Eval => "eval",
            OpType::XDivXSubXi => "xDivXSubXi",
            OpType::Q => "q",
            OpType::F => "f",
        }
    }
}

/// Distinct operand types have distinct names.
pub proof fn lemma_op_type_names_distinct(a: OpType, b: OpType)
    requires
        a != b,
    ensures
        op_type_name(a) != op_type_name(b),
{
    reveal_strlit("const");
    reveal_strlit("cm");
    reveal_strlit("tmp");
    reveal_strlit("public");
    reveal_strlit("airgroupvalue");
    reveal_strlit("challenge");
    reveal_strlit("number");
    reveal_strlit("string");
    reveal_strlit("airvalue");
    reveal_strlit("proofvalue");
    reveal_strlit("custom");
    reveal_strlit("x");
    reveal_strlit("Zi");
    reveal_strlit("eval");
    reveal_strlit("xDivXSubXi");
    reveal_strlit("q");
    reveal_strlit("f");
    let na = op_type_name(a);
    let nb = op_type_name(b);
    if na.len() == nb.len() {
        assert(na[0] != nb[0] || (na.len() > 1 && na[1] != nb[1]) || (na.len() > 2 && na[2] != nb[2]));
    }
}

/// Parsing the name of an operand type gives back that operand type.
pub proof fn lemma_parse_to_str(t: OpType, r: Result<OpType, SetupError>)
    requires
        match r {
            Ok(u) => op_type_name(u) == op_type_name(t),
            Err(e) => forall|u: OpType| op_type_name(u) != op_type_name(t),
        },
    ensures
        r == Ok::<OpType, SetupError>(t),
{
    match r {
        Ok(u) => {
            if u != t {
                lemma_op_type_names_distinct(u, t);
            }
        },
        Err(_) => {
            assert(op_type_name(t) == op_type_name(t));
            assert(false);
        },
    }
}

/// Operation of a code line.
#[derive(Debug, Clone, Copy, PartialEq, Eq, Structural)]
pub enum CodeOp {
    Add,
    Sub,
    Mul,
    Copy,
    SubSwap,
}

/// The name of a code operation.
pub open spec fn code_op_name(t: CodeOp) -> Seq<char> {
    match t {
        CodeOp::Add => "add"@,
        CodeOp::Sub => "sub"@,
        CodeOp::Mul => "mul"@,
        CodeOp::Copy => "copy"@,
        CodeOp::SubSwap => "sub_swap"@,
    }
}

impl CodeOp {
    /// The name of the operation.
    pub fn as_str(&self) -> (s: &'static str)
        ensures
            s@ == code_op_name(*self),
    {
        match self {
            CodeOp::Add => "add",
            CodeOp::Sub => "sub",
            CodeOp::Mul => "mul",
            CodeOp::Copy => "copy",
            CodeOp::SubSwap => "sub_swap",
        }
    }
}

/// A single operand reference within a code operation.
#[derive(Debug, Clone, Copy, PartialEq, Eq, Structural)]
pub struct CodeType {
    pub op_type: OpType,
    pub id: u64,
    pub prime: u64,
    pub dim: u64,
    pub value: u64,
    pub commit_id: u64,
    pub boundary_id: u64,
    pub airgroup_id: u64,
}

impl Default for CodeType {
    fn default() -> (c: CodeType)
        ensures
            c == (CodeType {
                op_type: OpType::Tmp,
                id: 0,
                prime: 0,
                dim: 0,
                value: 0,
                commit_id: 0,
                boundary_id: 0,
                airgroup_id: 0,
            }),
    {
        CodeType {
            op_type: OpType::Tmp,
            id: 0,
            prime: 0,
            dim: 0,
            value: 0,
            commit_id: 0,
            boundary_id: 0,
            airgroup_id: 0,
        }
    }
}

/// A single code instruction: an operation with its destination and sources.
#[derive(Debug, Clone)]
pub struct CodeOperation {
    pub op: CodeOp,
    pub dest: CodeType,
    pub src: Vec<CodeType>,
}

/// Polynomial map entry, shared by the committed, constant, challenge and
/// value maps.
#[derive(Debug, Clone)]
pub struct PolMap {
    pub stage: u64,
    pub name: String,
    pub dim: u64,
    pub im_pol: bool,
    pub stage_pos: u64,
    pub stage_id: u64,
    pub commit_id: u64,
    pub exp_id: u64,
    pub pols_map_id: u64,
}

/// Evaluation map entry.
#[derive(Debug, Clone)]
pub struct EvMap {
    pub ev_type: String,
    pub id: u64,
    pub prime: i64,
    pub commit_id: u64,
    pub opening_pos: u64,
}

/// Custom commit info.
#[derive(Debug, Clone)]
pub struct CustomCommit {
    pub name: String,
}

/// FRI step structure.
#[derive(Debug, Clone, Copy)]
pub struct StepStruct {
    pub n_bits: u64,
}

/// Stark structure parameters.
#[derive(Debug, Clone)]
pub struct StarkStruct {
    pub n_bits: u64,
    pub n_bits_ext: u64,
    pub n_queries: u64,
    pub hash_commits: bool,
    pub last_level_verification: u64,
    pub merkle_tree_arity: u64,
    pub steps: Vec<StepStruct>,
    pub pow_bits: u64,
}

/// Boundary descriptor.
#[derive(Debug, Clone)]
pub struct Boundary {
    pub name: String,
    pub offset_min: Option<u64>,
    pub offset_max: Option<u64>,
}

/// The parts of a starkinfo file that the argument encoding reads.
#[derive(Debug, Clone)]
pub struct StarkInfo {
    pub stark_struct: StarkStruct,
    pub n_stages: u64,
    pub n_constants: u64,
    pub n_publics: u64,
    pub custom_commits: Vec<CustomCommit>,
    pub cm_pols_map: Vec<PolMap>,
    pub const_pols_map: Vec<PolMap>,
    pub challenges_map: Vec<PolMap>,
    pub airgroup_values_map: Vec<PolMap>,
    pub air_values_map: Vec<PolMap>,
    pub proof_values_map: Vec<PolMap>,
    pub ev_map: Vec<EvMap>,
    pub opening_points: Vec<i64>,
    pub boundaries: Vec<Boundary>,
    pub q_deg: u64,
    pub q_dim: u64,
    pub fri_exp_id: u64,
    pub c_exp_id: u64,
    /// Section name and column count, in file order.
    pub map_sections_n: Vec<(String, u64)>,
}

/// Expression code block.
#[derive(Debug, Clone)]
pub struct ExpCode {
    pub exp_id: u64,
    pub stage: u64,
    pub tmp_used: u64,
    pub code: Vec<CodeOperation>,
    pub line: String,
    pub boundary: String,
    pub offset_min: u64,
    pub offset_max: u64,
    pub im_pol: u64,
}

/// Hint field value.
#[derive(Debug, Clone)]
pub struct HintFieldValue {
    pub op: String,
    pub id: u64,
    pub commit_id: u64,
    pub row_offset_index: u64,
    pub dim: u64,
    pub value: u64,
    pub string_value: String,
    pub airgroup_id: u64,
    pub pos: Vec<u64>,
}

/// Hint field containing a name and values.
#[derive(Debug, Clone)]
pub struct HintField {
    pub name: String,
    pub values: Vec<HintFieldValue>,
}

/// A single hint with a name and fields.
#[derive(Debug, Clone)]
pub struct Hint {
    pub name: String,
    pub fields: Vec<HintField>,
}

/// All expression code blocks of an AIR.
#[derive(Debug, Clone)]
pub struct ExpressionsInfo {
    pub expressions_code: Vec<ExpCode>,
    pub constraints: Vec<ExpCode>,
    pub hints_info: Vec<Hint>,
}

/// Verifier code blocks.
#[derive(Debug, Clone)]
pub struct VerifierInfo {
    pub q_verifier: ExpCode,
    pub query_verifier: ExpCode,
}

/// Global constraints info.
#[derive(Debug, Clone)]
pub struct GlobalConstraintsInfo {
    pub constraints: Vec<ExpCode>,
    pub hints: Vec<Hint>,
}

} // verus!
