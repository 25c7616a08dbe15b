//! The records extracted from a compiled PIL description (constraints,
//! symbols, hints, custom commits), and the byte-level helpers used while
//! reading it.
use vstd::prelude::*;
use crate::expression::{BoundaryKind, Expression, ExpressionArena};
use crate::text::{decimal, u128_to_decimal};

verus! {

/// Dimension of the cubic extension field.
pub const FIELD_EXTENSION: usize = 3;

/// A constraint: an arena expression that must vanish on `boundary`.
#[derive(Debug)]
pub struct ConstraintInfo {
    pub boundary: BoundaryKind,
    pub e: usize,
    pub line: Option<String>,
    pub offset_min: Option<u32>,
    pub offset_max: Option<u32>,
    pub stage: Option<usize>,
    pub im_pol: bool,
}

/// Kind of a symbol.
#[derive(Debug, Clone, Copy, PartialEq, Eq, Structural)]
pub enum SymType {
    Witness,
    Fixed,
    Challenge,
    Public,
    Airvalue,
    Airgroupvalue,
    Proofvalue,
    Custom,
    /// A symbol whose kind has not been set.
    Unset,
}

/// The textual name of a symbol kind.
pub open spec fn sym_type_name(t: SymType) -> Seq<char> {
    match t {
        SymType::Witness => "witness"@,
        SymType::Fixed => "fixed"@,
        SymType::Challenge => "challenge"@,
        SymType::Public => "public"@,
        SymType::Airvalue => "airvalue"@,
        SymType::Airgroupvalue => "airgroupvalue"@,
        SymType::Proofvalue => "proofvalue"@,
        SymType::Custom => "custom"@,
        SymType::Unset => ""@,
    }
}

impl SymType {
    /// The textual name of the kind.
    pub fn as_str(&self) -> (s: &'static str)
        ensures
            s@ == sym_type_name(*self),
    {
        match self {
            SymType::Witness => "witness",
            SymType::Fixed => "fixed",
            SymType::Challenge => "challenge",
            SymType::Public => "public",
            SymType::Airvalue => "airvalue",
            SymType::Airgroupvalue => "airgroupvalue",
            SymType::Proofvalue => "proofvalue",
            SymType::Custom => "custom",
            SymType::Unset => "",
        }
    }
}

/// A named symbol (column, challenge, public, ...).
#[derive(Debug)]
pub struct SymbolInfo {
    pub name: String,
    pub sym_type: SymType,
    pub stage: Option<usize>,
    pub dim: usize,
    pub id: Option<usize>,
    pub pol_id: Option<usize>,
    pub stage_id: Option<usize>,
    pub air_id: Option<usize>,
    pub airgroup_id: Option<usize>,
    pub commit_id: Option<usize>,
    pub lengths: Option<Vec<usize>>,
    pub idx: Option<usize>,
    pub stage_pos: Option<usize>,
    pub im_pol: bool,
    pub exp_id: Option<usize>,
}

impl SymbolInfo {
    /// `self` has kind `t`, name `name`, and every other field at its default
    /// (dimension 1).
    pub open spec fn is_plain(self, t: SymType, name: Seq<char>) -> bool {
        &&& self.sym_type == t
        &&& self.name@ == name
        &&& self.stage is None
        &&& self.dim == 1
        &&& self.id is None
        &&& self.pol_id is None
        &&& self.stage_id is None
        &&& self.air_id is None
        &&& self.airgroup_id is None
        &&& self.commit_id is None
        &&& self.lengths is None
        &&& self.idx is None
        &&& self.stage_pos is None
        &&& !self.im_pol
        &&& self.exp_id is None
    }
}

impl Default for SymbolInfo {
    fn default() -> (s: Self)
        ensures
            s.is_plain(SymType::Unset, Seq::empty()),
    {
        SymbolInfo {
            name: String::new(),
            sym_type: SymType::Unset,
            stage: None,
            dim: 1,
            id: None,
            pol_id: None,
            stage_id: None,
            air_id: None,
            airgroup_id: None,
            commit_id: None,
            lengths: None,
            idx: None,
            stage_pos: None,
            im_pol: false,
            exp_id: None,
        }
    }
}

/// A hint field value: a single expression or a nested array.
#[derive(Debug)]
pub enum HintFieldValue {
    Single(Expression),
    Array(Vec<HintFieldValue>),
}

/// A named hint field with its values and optional array lengths.
#[derive(Debug)]
pub struct HintFieldEntry {
    pub name: String,
    pub values: Vec<HintFieldValue>,
    pub lengths: Option<Vec<usize>>,
}

/// A hint and its fields.
#[derive(Debug)]
pub struct HintInfo {
    pub name: String,
    pub fields: Vec<HintFieldEntry>,
}

/// A custom commit and the widths of its stages.
#[derive(Debug)]
pub struct CustomCommitInfo {
    pub name: String,
    pub stage_widths: Vec<u32>,
}

/// The big-endian integer denoted by a byte string.
pub open spec fn be_value(buf: Seq<u8>) -> nat
    decreases buf.len(),
{
    if buf.len() == 0 {
        0
    } else {
        be_value(buf.drop_last()) * 256 + buf.last() as nat
    }
}

/// Appending a byte to a prefix multiplies its value by 256 and adds the byte.
proof fn lemma_be_push(s: Seq<u8>, i: int)
    requires
        0 <= i < s.len(),
    ensures
        be_value(s.subrange(0, i + 1)) == be_value(s.subrange(0, i)) * 256 + s[i] as nat,
{
    assert(s.subrange(0, i + 1).drop_last() =~= s.subrange(0, i));
}

/// Long division of a big-endian byte string by ten.
fn div_mod_10(buf: &Vec<u8>) -> (r: (Vec<u8>, u8))
    ensures
        r.1 < 10,
        be_value(buf@) == be_value(r.0@) * 10 + r.1 as nat,
        r.0@.len() == buf@.len(),
{
    let mut q: Vec<u8> = Vec::new();
    let mut rem: u32 = 0;
    let n = buf.len();
    let mut i: usize = 0;
    proof {
        assert(buf@.subrange(0, 0) =~= Seq::<u8>::empty());
        assert(q@ =~= Seq::<u8>::empty());
    }
    while i < n
        invariant
            n == buf@.len(),
            i <= n,
            rem < 10,
            q@.len() == i,
            be_value(buf@.subrange(0, i as int)) == be_value(q@) * 10 + rem as nat,
        decreases n - i,
    {
        let cur: u32 = rem * 256 + buf[i] as u32;
        let d: u32 = cur / 10;
        let ghost q0 = q@;
        proof {
            lemma_be_push(buf@, i as int);
            assert(d < 256);
        }
        q.push(d as u8);
        proof {
            assert(q@.drop_last() =~= q0);
            let bv = be_value(q0);
            assert(be_value(buf@.subrange(0, i as int + 1)) == be_value(q@) * 10 + cur % 10) by (nonlinear_arith)
                requires
                    be_value(buf@.subrange(0, i as int + 1)) == be_value(buf@.subrange(0, i as int)) * 256 + buf@[i as int] as nat,
                    be_value(buf@.subrange(0, i as int)) == bv * 10 + rem as nat,
                    be_value(q@) == bv * 256 + d as nat,
                    cur == rem * 256 + buf@[i as int] as nat,
                    d == cur / 10,
            ;
        }
        rem = cur % 10;
        i = i + 1;
    }
    proof {
        assert(buf@.subrange(0, n as int) =~= buf@);
    }
    (q, rem as u8)
}

/// Whether a big-endian byte string denotes zero.
fn is_zero_value(buf: &Vec<u8>) -> (z: bool)
    ensures
        z == (be_value(buf@) == 0),
{
    let mut z = true;
    let n = buf.len();
    let mut i: usize = 0;
    proof {
        assert(buf@.subrange(0, 0) =~= Seq::<u8>::empty());
    }
    while i < n
        invariant
            n == buf@.len(),
            i <= n,
            z == (be_value(buf@.subrange(0, i as int)) == 0),
        decreases n - i,
    {
        proof {
            lemma_be_push(buf@, i as int);
        }
        if buf[i] != 0 {
            z = false;
        }
        i = i + 1;
    }
    proof {
        assert(buf@.subrange(0, n as int) =~= buf@);
    }
    z
}

/// The decimal digits of the big-endian integer in `buf`.
fn be_decimal(buf: Vec<u8>) -> (s: String)
    ensures
        s@ == decimal(be_value(buf@)),
    decreases be_value(buf@),
{
    let (q, r) = div_mod_10(&buf);
    let ghost v = be_value(buf@);
    let ghost qv = be_value(q@);
    if is_zero_value(&q) {
        u128_to_decimal(r as u128)
    } else {
        proof {
            vstd::arithmetic::div_mod::lemma_fundamental_div_mod_converse(v as int, 10, qv as int, r as int);
        }
        let mut s = be_decimal(q);
        s.append(crate::text::digit_str(r as u64));
        s
    }
}

/// The decimal string of the big-endian integer in `buf`, however long;
/// `"0"` for an empty buffer.
pub fn buf_to_bigint_string(buf: &[u8]) -> (s: String)
    ensures
        s@ == decimal(be_value(buf@)),
{
    let mut v: Vec<u8> = Vec::new();
    let n = buf.len();
    let mut i: usize = 0;
    while i < n
        invariant
            n == buf@.len(),
            i <= n,
            v@ == buf@.subrange(0, i as int),
        decreases n - i,
    {
        v.push(buf[i]);
        i = i + 1;
    }
    proof {
        assert(buf@.subrange(0, n as int) =~= buf@);
    }
    be_decimal(v)
}

/// An arena holding `exprs`, in order.
pub fn build_arena(exprs: Vec<Expression>) -> (arena: ExpressionArena)
    ensures
        arena.exprs@ == exprs@,
{
    ExpressionArena { exprs }
}

} // verus!
