//! Expression nodes, the arena that stores them, and the structural
//! predicates (shape, acyclicity) that the analyses over the arena rely on.
use vstd::prelude::*;

verus! {

/// Index into the expression arena.
pub type ExprId = usize;

/// Operation of an expression node.
#[derive(Debug, Clone, Copy, PartialEq, Eq, Structural)]
pub enum ExprOp {
    Add,
    Sub,
    Mul,
    Neg,
    Exp,
    Cm,
    Const,
    Custom,
    Number,
    Public,
    Challenge,
    Eval,
    Airvalue,
    Airgroupvalue,
    Proofvalue,
    Zi,
    XDivXSubXi,
    X,
    StringVal,
}

/// Boundary on which a constraint is enforced.
#[derive(Debug, Clone, Copy, PartialEq, Eq, Structural)]
pub enum BoundaryKind {
    EveryRow,
    FirstRow,
    LastRow,
    EveryFrame,
}

/// The textual name of an operation.
pub open spec fn op_name(op: ExprOp) -> Seq<char> {
    match op {
        ExprOp::Add => "add"@,
        ExprOp::Sub => "sub"@,
        ExprOp::Mul => "mul"@,
        ExprOp::Neg => "neg"@,
        ExprOp::Exp => "exp"@,
        ExprOp::Cm => "cm"@,
        ExprOp::Const => "const"@,
        ExprOp::Custom => "custom"@,
        ExprOp::Number => "number"@,
        ExprOp::Public => "public"@,
        ExprOp::Challenge => "challenge"@,
        ExprOp::Eval => "eval"@,
        ExprOp::Airvalue => "airvalue"@,
        ExprOp::Airgroupvalue => "airgroupvalue"@,
        ExprOp::Proofvalue => "proofvalue"@,
        ExprOp::Zi => "Zi"@,
        ExprOp::XDivXSubXi => "xDivXSubXi"@,
        ExprOp::X => "x"@,
        ExprOp::StringVal => "string"@,
    }
}

impl ExprOp {
    /// The textual name of the operation.
    pub fn as_str(&self) -> (s: &'static str)
        ensures
            s@ == op_name(*self),
    {
        match self {
            ExprOp::Add => "add",
            ExprOp::Sub => "sub",
            ExprOp::Mul => "mul",
            ExprOp::Neg => "neg",
            ExprOp::Exp => "exp",
            ExprOp::Cm => "cm",
            ExprOp::Const => "const",
            ExprOp::Custom => "custom",
            ExprOp::Number => "number",
            ExprOp::Public => "public",
            ExprOp::Challenge => "challenge",
            ExprOp::Eval => "eval",
            ExprOp::Airvalue => "airvalue",
            ExprOp::Airgroupvalue => "airgroupvalue",
            ExprOp::Proofvalue => "proofvalue",
            ExprOp::Zi => "Zi",
            ExprOp::XDivXSubXi => "xDivXSubXi",
            ExprOp::X => "x",
            ExprOp::StringVal => "string",
        }
    }
}

/// The textual name of a boundary.
pub open spec fn boundary_name(t: BoundaryKind) -> Seq<char> {
    match t {
        BoundaryKind::EveryRow => "everyRow"@,
        BoundaryKind::FirstRow => "firstRow"@,
        BoundaryKind::LastRow => "lastRow"@,
        BoundaryKind::EveryFrame => "everyFrame"@,
    }
}

impl BoundaryKind {
    /// The textual name of the boundary.
    pub fn as_str(&self) -> (s: &'static str)
        ensures
            s@ == boundary_name(*self),
    {
        match self {
            BoundaryKind::EveryRow => "everyRow",
            BoundaryKind::FirstRow => "firstRow",
            BoundaryKind::LastRow => "lastRow",
            BoundaryKind::EveryFrame => "everyFrame",
        }
    }
}

/// A child of an expression node: either a reference to an arena entry or an
/// inline expression that is not stored in the arena.
#[derive(Debug)]
pub enum ExprChild {
    Id(ExprId),
    Inline(Box<Expression>),
}

/// A single expression node.
#[derive(Debug)]
pub struct Expression {
    pub op: ExprOp,
    pub values: Vec<ExprChild>,
    pub id: Option<usize>,
    pub dim: usize,
    pub stage: usize,
    pub exp_deg: i64,
    pub row_offset: Option<i64>,
    pub rows_offsets: Vec<i64>,
    pub value: Option<String>,
    pub boundary_id: Option<usize>,
    pub boundary: Option<BoundaryKind>,
    pub opening: Option<i64>,
    pub commit_id: Option<usize>,
    pub stage_id: Option<usize>,
    pub airgroup_id: Option<usize>,
    pub im_pol: bool,
    pub pol_id: Option<usize>,
    pub keep: Option<bool>,
    /// Set once the degree/dimension/stage information has been computed.
    pub info_computed: bool,
    /// Cached pretty-printed form.
    pub line: Option<String>,
}

/// Mathematical model of a child.
pub ghost enum ChildView {
    Id(usize),
    Inline(Box<ExprView>),
}

/// Mathematical model of an expression node: vectors become sequences and
/// strings become sequences of characters.
pub ghost struct ExprView {
    pub op: ExprOp,
    pub values: Seq<ChildView>,
    pub id: Option<usize>,
    pub dim: usize,
    pub stage: usize,
    pub exp_deg: i64,
    pub row_offset: Option<i64>,
    pub rows_offsets: Seq<i64>,
    pub value: Option<Seq<char>>,
    pub boundary_id: Option<usize>,
    pub boundary: Option<BoundaryKind>,
    pub opening: Option<i64>,
    pub commit_id: Option<usize>,
    pub stage_id: Option<usize>,
    pub airgroup_id: Option<usize>,
    pub im_pol: bool,
    pub pol_id: Option<usize>,
    pub keep: Option<bool>,
    pub info_computed: bool,
    pub line: Option<Seq<char>>,
}

/// Model of an optional string.
pub open spec fn opt_str_view(s: Option<String>) -> Option<Seq<char>> {
    match s {
        Some(t) => Some(t@),
        None => None,
    }
}

/// Model of a list of children.
pub open spec fn children_view(cs: Seq<ExprChild>) -> Seq<ChildView>
    decreases cs,
{
    if cs.len() == 0 {
        Seq::empty()
    } else {
        children_view(cs.drop_last()).push(child_view(cs.last()))
    }
}

/// Model of a child.
pub open spec fn child_view(c: ExprChild) -> ChildView
    decreases c,
{
    match c {
        ExprChild::Id(i) => ChildView::Id(i),
        ExprChild::Inline(b) => ChildView::Inline(Box::new(expr_view(*b))),
    }
}

/// Model of an expression.
pub open spec fn expr_view(e: Expression) -> ExprView
    decreases e,
{
    ExprView {
        op: e.op,
        values: children_view(e.values@),
        id: e.id,
        dim: e.dim,
        stage: e.stage,
        exp_deg: e.exp_deg,
        row_offset: e.row_offset,
        rows_offsets: e.rows_offsets@,
        value: opt_str_view(e.value),
        boundary_id: e.boundary_id,
        boundary: e.boundary,
        opening: e.opening,
        commit_id: e.commit_id,
        stage_id: e.stage_id,
        airgroup_id: e.airgroup_id,
        im_pol: e.im_pol,
        pol_id: e.pol_id,
        keep: e.keep,
        info_computed: e.info_computed,
        line: opt_str_view(e.line),
    }
}

impl View for Expression {
    type V = ExprView;

    open spec fn view(&self) -> ExprView {
        expr_view(*self)
    }
}

impl View for ExprChild {
    type V = ChildView;

    open spec fn view(&self) -> ChildView {
        child_view(*self)
    }
}

/// Model of an arena (or any slice of expressions).
pub open spec fn arena_view(exprs: Seq<Expression>) -> Seq<ExprView> {
    exprs.map_values(|e: Expression| e@)
}

/// `children_view` is taken pointwise.
pub proof fn lemma_children_view(cs: Seq<ExprChild>)
    ensures
        children_view(cs).len() == cs.len(),
        forall|k: int| 0 <= k < cs.len() ==> #[trigger] children_view(cs)[k] == cs[k]@,
    decreases cs.len(),
{
    if cs.len() > 0 {
        lemma_children_view(cs.drop_last());
    }
}

/// The arena index an `exp` node refers to (an absent id means index 0).
pub open spec fn exp_target(e: ExprView) -> int {
    match e.id {
        Some(i) => i as int,
        None => 0,
    }
}

/// `true` when `e` (or an inline descendant) refers to arena entry `j`,
/// either through an `Id` child or as the target of an `exp` node.
pub open spec fn refers_to(e: ExprView, j: int) -> bool
    decreases e, e.values.len() + 1,
{
    ||| (e.op == ExprOp::Exp && exp_target(e) == j)
    ||| children_refer_to(e, e.values.len() as int, j)
}

/// `true` when one of the first `k` children of `e` refers to arena entry `j`.
pub open spec fn children_refer_to(e: ExprView, k: int, j: int) -> bool
    decreases e, k,
{
    if k <= 0 || k > e.values.len() {
        false
    } else {
        (match e.values[k - 1] {
            ChildView::Id(i) => i as int == j,
            ChildView::Inline(b) => refers_to(*b, j),
        }) || children_refer_to(e, k - 1, j)
    }
}

/// `true` when the child refers to arena entry `j`.
pub open spec fn child_refers_to(c: ChildView, j: int) -> bool {
    match c {
        ChildView::Id(i) => i as int == j,
        ChildView::Inline(b) => refers_to(*b, j),
    }
}

/// A reference of the `k`-th child is a reference of `e`.
pub proof fn lemma_child_refs(e: ExprView, k: int, j: int)
    requires
        0 <= k < e.values.len(),
        child_refers_to(e.values[k], j),
    ensures
        refers_to(e, j),
{
    lemma_children_refer(e, k, e.values.len() as int, j);
}

proof fn lemma_children_refer(e: ExprView, k: int, n: int, j: int)
    requires
        0 <= k < n <= e.values.len(),
        child_refers_to(e.values[k], j),
    ensures
        children_refer_to(e, n, j),
    decreases n,
{
    if k < n - 1 {
        lemma_children_refer(e, k, n - 1, j);
    }
}

/// Number of children an operation reads.
pub open spec fn arity(op: ExprOp) -> nat {
    match op {
        ExprOp::Add | ExprOp::Sub | ExprOp::Mul => 2,
        ExprOp::Neg => 1,
        _ => 0,
    }
}

/// Every node in `e` (including inline descendants) has at least as many
/// children as its operation reads.
pub open spec fn well_shaped(e: ExprView) -> bool
    decreases e, e.values.len() + 1,
{
    e.values.len() >= arity(e.op) && children_shaped(e, e.values.len() as int)
}

/// The first `k` children of `e` are well shaped.
pub open spec fn children_shaped(e: ExprView, k: int) -> bool
    decreases e, k,
{
    if k <= 0 || k > e.values.len() {
        true
    } else {
        (match e.values[k - 1] {
            ChildView::Id(_) => true,
            ChildView::Inline(b) => well_shaped(*b),
        }) && children_shaped(e, k - 1)
    }
}

/// An inline child is well shaped; an `Id` child always is.
pub open spec fn child_well_shaped(c: ChildView) -> bool {
    match c {
        ChildView::Id(_) => true,
        ChildView::Inline(b) => well_shaped(*b),
    }
}

/// Every child of a well-shaped node is well shaped.
pub proof fn lemma_child_shaped(e: ExprView, k: int)
    requires
        0 <= k < e.values.len(),
        well_shaped(e),
    ensures
        child_well_shaped(e.values[k]),
{
    lemma_children_shaped(e, k, e.values.len() as int);
}

proof fn lemma_children_shaped(e: ExprView, k: int, n: int)
    requires
        0 <= k < n <= e.values.len(),
        children_shaped(e, n),
    ensures
        child_well_shaped(e.values[k]),
    decreases n,
{
    if k < n - 1 {
        lemma_children_shaped(e, k, n - 1);
    }
}

/// `rank` witnesses that the reference graph of `exprs` has no cycle: every
/// reference leads to an in-bounds entry of strictly smaller rank.
pub open spec fn ranked(exprs: Seq<ExprView>, rank: Seq<nat>) -> bool {
    &&& rank.len() == exprs.len()
    &&& forall|i: int, j: int|
        0 <= i < exprs.len() && #[trigger] refers_to(exprs[i], j) ==> 0 <= j < exprs.len()
            && rank[j] < rank[i]
}

/// The arena is a well-formed DAG: nodes are well shaped and references are
/// acyclic and in bounds.
pub open spec fn arena_wf(exprs: Seq<ExprView>) -> bool {
    &&& forall|i: int| 0 <= i < exprs.len() ==> #[trigger] well_shaped(exprs[i])
    &&& exists|rank: Seq<nat>| ranked(exprs, rank)
}

/// A fixed acyclicity witness for a well-formed arena.
pub open spec fn canon_rank(exprs: Seq<ExprView>) -> Seq<nat> {
    choose|rank: Seq<nat>| ranked(exprs, rank)
}

/// All references of `e` land inside `exprs` below rank `bound`.
pub open spec fn refs_below(exprs: Seq<ExprView>, rank: Seq<nat>, e: ExprView, bound: nat) -> bool {
    forall|j: int| #[trigger] refers_to(e, j) ==> 0 <= j < exprs.len() && rank[j] < bound
}

/// An expression outside the arena that is well shaped and whose references
/// are in bounds.
pub open spec fn inline_wf(exprs: Seq<ExprView>, e: ExprView) -> bool {
    &&& well_shaped(e)
    &&& forall|j: int| #[trigger] refers_to(e, j) ==> 0 <= j < exprs.len()
}

impl ExprChild {
    /// Resolve this child to the expression it denotes.
    pub fn resolve<'a>(&'a self, expressions: &'a [Expression]) -> (r: &'a Expression)
        requires
            match self {
                ExprChild::Id(id) => *id < expressions@.len(),
                ExprChild::Inline(_) => true,
            },
        ensures
            match self {
                ExprChild::Id(id) => *r == expressions@[*id as int],
                ExprChild::Inline(b) => *r == **b,
            },
    {
        match self {
            ExprChild::Id(id) => &expressions[*id],
            ExprChild::Inline(expr) => expr,
        }
    }

    /// The arena index if this is an `Id` child.
    pub fn as_id(&self) -> (r: Option<ExprId>)
        ensures
            match self {
                ExprChild::Id(id) => r == Some(*id),
                ExprChild::Inline(_) => r is None,
            },
    {
        match self {
            ExprChild::Id(id) => Some(*id),
            ExprChild::Inline(_) => None,
        }
    }

    /// The arena index of an `Id` child.
    pub fn id(&self) -> (r: ExprId)
        requires
            self is Id,
        ensures
            self == ExprChild::Id(r),
    {
        match self {
            ExprChild::Id(id) => *id,
            ExprChild::Inline(_) => 0,
        }
    }
}

impl ExprChild {
    /// A deep copy of this child.
    pub fn deep_copy(&self) -> (r: ExprChild)
        ensures
            r@ == self@,
        decreases self,
    {
        match self {
            ExprChild::Id(id) => ExprChild::Id(*id),
            ExprChild::Inline(b) => ExprChild::Inline(Box::new(b.deep_copy())),
        }
    }
}

impl Clone for ExprChild {
    fn clone(&self) -> (r: Self)
        ensures
            r@ == self@,
    {
        self.deep_copy()
    }
}

impl Clone for Expression {
    fn clone(&self) -> (r: Self)
        ensures
            r@ == self@,
    {
        self.deep_copy()
    }
}

impl Expression {
    /// A deep copy of this node and its inline descendants.
    pub fn deep_copy(&self) -> (r: Expression)
        ensures
            r@ == self@,
        decreases self,
    {
        let mut values: Vec<ExprChild> = Vec::new();
        let n = self.values.len();
        let mut k: usize = 0;
        while k < n
            invariant
                n == self.values@.len(),
                k <= n,
                values@.len() == k,
                forall|i: int| 0 <= i < k ==> #[trigger] values@[i]@ == self.values@[i]@,
            decreases n - k,
        {
            assert(decreases_to!(self => self.values@[k as int]));
            values.push(self.values[k].deep_copy());
            k = k + 1;
        }
        proof {
            lemma_children_view(values@);
            lemma_children_view(self.values@);
            assert(children_view(values@) =~= children_view(self.values@));
        }
        let value = match &self.value {
            Some(v) => Some(v.clone()),
            None => None,
        };
        let line = match &self.line {
            Some(v) => Some(v.clone()),
            None => None,
        };
        Expression {
            op: self.op,
            values,
            id: self.id,
            dim: self.dim,
            stage: self.stage,
            exp_deg: self.exp_deg,
            row_offset: self.row_offset,
            rows_offsets: self.rows_offsets.clone(),
            value,
            boundary_id: self.boundary_id,
            boundary: self.boundary,
            opening: self.opening,
            commit_id: self.commit_id,
            stage_id: self.stage_id,
            airgroup_id: self.airgroup_id,
            im_pol: self.im_pol,
            pol_id: self.pol_id,
            keep: self.keep,
            info_computed: self.info_computed,
            line,
        }
    }

    /// A fresh node with the given operation and every other field at its
    /// default (dimension 1, nothing computed).
    pub fn new(op: ExprOp) -> (e: Expression)
        ensures
            e.is_blank(op),
    {
        Expression {
            op,
            values: Vec::new(),
            id: None,
            dim: 1,
            stage: 0,
            exp_deg: 0,
            row_offset: None,
            rows_offsets: Vec::new(),
            value: None,
            boundary_id: None,
            boundary: None,
            opening: None,
            commit_id: None,
            stage_id: None,
            airgroup_id: None,
            im_pol: false,
            pol_id: None,
            keep: None,
            info_computed: false,
            line: None,
        }
    }

    /// `self` is a node with operation `op` and every other field at its default.
    pub open spec fn is_blank(self, op: ExprOp) -> bool {
        &&& self.op == op
        &&& self.values@.len() == 0
        &&& self.id is None
        &&& self.dim == 1
        &&& self.stage == 0
        &&& self.exp_deg == 0
        &&& self.row_offset is None
        &&& self.rows_offsets@.len() == 0
        &&& self.value is None
        &&& self.boundary_id is None
        &&& self.boundary is None
        &&& self.opening is None
        &&& self.commit_id is None
        &&& self.stage_id is None
        &&& self.airgroup_id is None
        &&& !self.im_pol
        &&& self.pol_id is None
        &&& self.keep is None
        &&& !self.info_computed
        &&& self.line is None
    }
}

/// Arena-based expression storage; expressions refer to each other by index.
#[derive(Debug)]
pub struct ExpressionArena {
    pub exprs: Vec<Expression>,
}

impl ExpressionArena {
    pub fn new() -> (a: Self)
        ensures
            a.exprs@.len() == 0,
    {
        ExpressionArena { exprs: Vec::new() }
    }

    /// Append `expr`, returning its index.
    pub fn push(&mut self, expr: Expression) -> (id: ExprId)
        requires
            old(self).exprs@.len() < usize::MAX,
        ensures
            id == old(self).exprs@.len(),
            final(self).exprs@ == old(self).exprs@.push(expr),
    {
        let id = self.exprs.len();
        self.exprs.push(expr);
        id
    }

    pub fn get(&self, id: ExprId) -> (e: &Expression)
        requires
            id < self.exprs@.len(),
        ensures
            *e == self.exprs@[id as int],
    {
        &self.exprs[id]
    }

    /// Mutable access to the entry at `id`.
    pub fn get_mut(&mut self, id: ExprId) -> (e: &mut Expression)
        requires
            id < old(self).exprs@.len(),
        ensures
            *e == old(self).exprs@[id as int],
            final(self).exprs@ == old(self).exprs@.update(id as int, *final(e)),
    {
        &mut self.exprs[id]
    }

    pub fn len(&self) -> (n: usize)
        ensures
            n == self.exprs@.len(),
    {
        self.exprs.len()
    }

    pub fn is_empty(&self) -> (b: bool)
        ensures
            b == (self.exprs@.len() == 0),
    {
        self.exprs.len() == 0
    }
}

} // verus!
