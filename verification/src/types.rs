//! The records of the generated code (operand references and code lines) and
//! the records that describe an AIR's proving key in the output files.
use vstd::prelude::*;
use crate::stark_info::CodeOp;

verus! {

/// Kind of an operand of a generated code line.
#[derive(Debug, Clone, Copy, PartialEq, Eq, Structural)]
pub enum RefType {
    Exp,
    Tmp,
    Cm,
    Const,
    Custom,
    Challenge,
    Public,
    Proofvalue,
    Number,
    Eval,
    Airgroupvalue,
    Airvalue,
    XDivXSubXi,
    Zi,
    /// The quotient polynomial.
    Q,
    /// The FRI polynomial.
    F,
}

/// The name of a reference kind in the output files.
pub open spec fn ref_type_name(t: RefType) -> Seq<char> {
    match t {
        RefType::Exp => "exp"@,
        RefType::Tmp => "tmp"@,
        RefType::Cm => "cm"@,
        RefType::Const => "const"@,
        RefType::Custom => "custom"@,
        RefType::Challenge => "challenge"@,
        RefType::Public => "public"@,
        RefType::Proofvalue => "proofvalue"@,
        RefType::Number => "number"@,
        RefType::Eval => "eval"@,
        RefType::Airgroupvalue => "airgroupvalue"@,
        RefType::Airvalue => "airvalue"@,
        RefType::XDivXSubXi => "xDivXSubXi"@,
        RefType::Zi => "Zi"@,
        RefType::Q => "q"@,
        RefType::F => "f"@,
    }
}

impl RefType {
    /// The name of the kind in the output files.
    pub fn as_str(&self) -> (s: &'static str)
        ensures
            s@ == ref_type_name(*self),
    {
        match self {
            RefType::Exp => "exp",
            RefType::Tmp => "tmp",
            RefType::Cm => "cm",
            RefType::Const => "const",
            RefType::Custom => "custom",
            RefType::Challenge => "challenge",
            RefType::Public => "public",
            RefType::Proofvalue => "proofvalue",
            RefType::Number => "number",
            RefType::Eval => "eval",
            RefType::Airgroupvalue => "airgroupvalue",
            RefType::Airvalue => "airvalue",
            RefType::XDivXSubXi => "xDivXSubXi",
            RefType::Zi => "Zi",
            RefType::Q => "q",
            RefType::F => "f",
        }
    }
}

/// An operand of a generated code line.
#[derive(Debug)]
pub struct CodeRef {
    pub ref_type: RefType,
    pub id: usize,
    pub dim: usize,
    pub prime: Option<i64>,
    pub value: Option<String>,
    pub stage: Option<usize>,
    pub stage_id: Option<usize>,
    pub commit_id: Option<usize>,
    pub opening: Option<i64>,
    pub boundary_id: Option<usize>,
    pub airgroup_id: Option<usize>,
    /// The expression an `exp` operand stood for, kept when it becomes a
    /// temporary.
    pub exp_id: Option<usize>,
}

/// Mathematical model of an operand: the string becomes a character sequence.
pub ghost struct RefView {
    pub ref_type: RefType,
    pub id: usize,
    pub dim: usize,
    pub prime: Option<i64>,
    pub value: Option<Seq<char>>,
    pub stage: Option<usize>,
    pub stage_id: Option<usize>,
    pub commit_id: Option<usize>,
    pub opening: Option<i64>,
    pub boundary_id: Option<usize>,
    pub airgroup_id: Option<usize>,
    pub exp_id: Option<usize>,
}

impl View for CodeRef {
    type V = RefView;

    open spec fn view(&self) -> RefView {
        RefView {
            ref_type: self.ref_type,
            id: self.id,
            dim: self.dim,
            prime: self.prime,
            value: match self.value {
                Some(s) => Some(s@),
                None => None,
            },
            stage: self.stage,
            stage_id: self.stage_id,
            commit_id: self.commit_id,
            opening: self.opening,
            boundary_id: self.boundary_id,
            airgroup_id: self.airgroup_id,
            exp_id: self.exp_id,
        }
    }
}

/// An operand of kind `t` with id `id` and dimension `dim`, every other field
/// empty.
pub open spec fn plain_ref(t: RefType, id: usize, dim: usize) -> RefView {
    RefView {
        ref_type: t,
        id,
        dim,
        prime: None,
        value: None,
        stage: None,
        stage_id: None,
        commit_id: None,
        opening: None,
        boundary_id: None,
        airgroup_id: None,
        exp_id: None,
    }
}

impl CodeRef {
    /// An operand of kind `t` with id `id` and dimension `dim`, every other
    /// field empty.
    pub fn plain(t: RefType, id: usize, dim: usize) -> (r: CodeRef)
        ensures
            r@ == plain_ref(t, id, dim),
    {
        CodeRef {
            ref_type: t,
            id,
            dim,
            prime: None,
            value: None,
            stage: None,
            stage_id: None,
            commit_id: None,
            opening: None,
            boundary_id: None,
            airgroup_id: None,
            exp_id: None,
        }
    }

    /// A copy of the operand.
    pub fn deep_copy(&self) -> (r: CodeRef)
        ensures
            r@ == self@,
    {
        CodeRef {
            ref_type: self.ref_type,
            id: self.id,
            dim: self.dim,
            prime: self.prime,
            value: match &self.value {
                Some(s) => Some(s.clone()),
                None => None,
            },
            stage: self.stage,
            stage_id: self.stage_id,
            commit_id: self.commit_id,
            opening: self.opening,
            boundary_id: self.boundary_id,
            airgroup_id: self.airgroup_id,
            exp_id: self.exp_id,
        }
    }
}

impl Clone for CodeRef {
    fn clone(&self) -> (r: Self)
        ensures
            r@ == self@,
    {
        self.deep_copy()
    }
}

/// A generated code line: `dest = op(src...)`.
#[derive(Debug)]
pub struct CodeEntry {
    pub op: CodeOp,
    pub dest: CodeRef,
    pub src: Vec<CodeRef>,
}

/// Mathematical model of a code line.
pub ghost struct EntryView {
    pub op: CodeOp,
    pub dest: RefView,
    pub src: Seq<RefView>,
}

/// Model of a sequence of operands.
pub open spec fn refs_view(s: Seq<CodeRef>) -> Seq<RefView> {
    s.map_values(|r: CodeRef| r@)
}

impl View for CodeEntry {
    type V = EntryView;

    open spec fn view(&self) -> EntryView {
        EntryView { op: self.op, dest: self.dest@, src: refs_view(self.src@) }
    }
}

/// Model of a sequence of code lines.
pub open spec fn code_view(s: Seq<CodeEntry>) -> Seq<EntryView> {
    s.map_values(|e: CodeEntry| e@)
}

/// A copy of a list of operands.
pub fn copy_refs(src: &Vec<CodeRef>) -> (r: Vec<CodeRef>)
    ensures
        refs_view(r@) == refs_view(src@),
{
    let mut r: Vec<CodeRef> = Vec::new();
    let mut i: usize = 0;
    while i < src.len()
        invariant
            i <= src@.len(),
            r@.len() == i,
            forall|k: int| 0 <= k < i ==> #[trigger] r@[k]@ == src@[k]@,
        decreases src.len() - i,
    {
        r.push(src[i].deep_copy());
        i = i + 1;
    }
    assert(refs_view(r@) =~= refs_view(src@));
    r
}

impl CodeEntry {
    /// A copy of the code line.
    pub fn deep_copy(&self) -> (r: CodeEntry)
        ensures
            r@ == self@,
    {
        CodeEntry { op: self.op, dest: self.dest.deep_copy(), src: copy_refs(&self.src) }
    }
}

impl Clone for CodeEntry {
    fn clone(&self) -> (r: Self)
        ensures
            r@ == self@,
    {
        self.deep_copy()
    }
}

/// A block of generated code and the number of temporaries it uses.
#[derive(Debug)]
pub struct CodeOutput {
    pub tmp_used: usize,
    pub code: Vec<CodeEntry>,
}

/// The STARK parameters of an AIR as written to its description file.
#[derive(Debug, Clone)]
pub struct StarkStructOutput {
    pub n_bits: usize,
    pub merkle_tree_arity: usize,
    pub transcript_arity: usize,
    pub merkle_tree_custom: bool,
    pub last_level_verification: Option<usize>,
    pub pow_bits: usize,
    pub hash_commits: bool,
    pub n_bits_ext: usize,
    pub verification_hash_type: String,
    pub steps: Vec<StepOutput>,
    pub n_queries: usize,
}

/// One folding step of FRI.
#[derive(Debug, Clone, Copy)]
pub struct StepOutput {
    pub n_bits: usize,
}

/// A constraint boundary as written to the description file.
#[derive(Debug, Clone)]
pub struct BoundaryOutput {
    pub name: String,
    pub offset_min: Option<i64>,
    pub offset_max: Option<i64>,
}

/// A column opened at an opening point, as written to the description file.
#[derive(Debug, Clone)]
pub struct EvMapEntry {
    pub entry_type: String,
    pub id: usize,
    pub prime: i64,
    pub opening_pos: usize,
    pub commit_id: Option<usize>,
}

/// A committed or constant column, as written to the description file.
#[derive(Debug, Clone)]
pub struct PolMapEntry {
    pub stage: usize,
    pub name: String,
    pub dim: usize,
    pub pols_map_id: usize,
    pub stage_id: usize,
    pub lengths: Option<Vec<usize>>,
    pub stage_pos: Option<usize>,
    pub im_pol: Option<bool>,
    pub exp_id: Option<usize>,
}

/// A challenge, as written to the description file.
#[derive(Debug, Clone)]
pub struct ChallengeMapEntryOutput {
    pub name: String,
    pub stage: usize,
    pub dim: usize,
    pub stage_id: usize,
}

/// A public input, as written to the description file.
#[derive(Debug, Clone)]
pub struct PublicMapEntry {
    pub name: String,
    pub stage: usize,
    pub lengths: Option<Vec<usize>>,
}

/// A proof, airgroup or air value, as written to the description file.
#[derive(Debug, Clone)]
pub struct NameStageEntry {
    pub name: String,
    pub stage: usize,
    pub lengths: Option<Vec<usize>>,
}

} // verus!
