//! The dependency graph over a program's top-level assignments: what a node
//! is, and how nodes are found.

#[allow(unused_imports)]
use crate::ast::{Expr, SpecExpr};
#[allow(unused_imports)]
use crate::names::{self, NameMap};
#[allow(unused_imports)]
use crate::number::{self, Bits};
use vstd::prelude::*;

verus! {

pub type NodeId = usize;

/// The name after which `<...>` is a ticker.
pub const CLASS_T: &'static str = "t";

/// A concrete, frozen value: what is written as a literal for a fixed node.
#[derive(Debug, Clone)]
pub enum FrozenLit {
    Number(Bits),
    Str(String),
}

pub enum SpecLit {
    Number(Bits),
    Str(Seq<char>),
}

impl View for FrozenLit {
    type V = SpecLit;

    open spec fn view(&self) -> SpecLit {
        match *self {
            FrozenLit::Number(n) => SpecLit::Number(n),
            FrozenLit::Str(s) => SpecLit::Str(s@),
        }
    }
}

/// A frozen value as an expression: a short integer as such, any other number
/// as a float. The negative zero is no integer: it would lose its sign.
pub open spec fn lit_expr(l: SpecLit) -> SpecExpr {
    match l {
        SpecLit::Number(n) => if n == number::SIGN {
            SpecExpr::Float(n)
        } else {
            match number::short_int(n) {
                Some(i) => SpecExpr::Int(i),
                None => SpecExpr::Float(n),
            }
        },
        SpecLit::Str(s) => SpecExpr::Str(s),
    }
}

impl FrozenLit {
    pub fn to_expr(&self) -> (r: Expr)
        ensures
            r@ == lit_expr(self@),
    {
        match self {
            FrozenLit::Number(n) => if *n == number::SIGN {
                Expr::Float(*n)
            } else {
                match number::to_short_int(*n) {
                    Some(i) => Expr::Int(i),
                    None => Expr::Float(*n),
                }
            },
            FrozenLit::Str(s) => Expr::Str(s.clone()),
        }
    }

    /// The same value again.
    pub fn copy(&self) -> (r: FrozenLit)
        ensures
            r == *self,
    {
        match self {
            FrozenLit::Number(n) => FrozenLit::Number(*n),
            FrozenLit::Str(s) => FrozenLit::Str(s.clone()),
        }
    }
}

/// Why a node is live (could not be frozen).
#[derive(Debug, Clone, Copy, PartialEq, Eq, Structural)]
pub enum LiveReason {
    /// Reads a ticker fetch, directly or transitively.
    Ticker,
    /// Calls a function: calls are not traced into.
    FunctionCall,
    /// A loop's trip count depends on a param.
    ParamControlledLoop,
    /// A branch depends on a param and one side of it is live.
    ParamControlledBranch,
    /// A `mut` binding: reassigned over its lifetime.
    MutableBinding,
    /// Nothing is known: a type error, a division by zero, an unknown name.
    Undefined,
}

pub open spec fn reason_text(r: LiveReason) -> Seq<char> {
    match r {
        LiveReason::Ticker => "reads a ticker fetch"@,
        LiveReason::FunctionCall => "calls a function (not traced)"@,
        LiveReason::ParamControlledLoop => "a loop's trip count depends on a param"@,
        LiveReason::ParamControlledBranch => "a branch depends on a param and can't be reduced"@,
        LiveReason::MutableBinding => "a `mut` binding, reassigned over its lifetime"@,
        LiveReason::Undefined => "couldn't be reduced to a formula"@,
    }
}

impl LiveReason {
    /// The reason in words.
    pub fn to_text(&self) -> (r: String)
        ensures
            r@ == reason_text(*self),
    {
        match self {
            LiveReason::Ticker => "reads a ticker fetch".to_owned(),
            LiveReason::FunctionCall => "calls a function (not traced)".to_owned(),
            LiveReason::ParamControlledLoop => "a loop's trip count depends on a param".to_owned(),
            LiveReason::ParamControlledBranch => {
                "a branch depends on a param and can't be reduced".to_owned()
            },
            LiveReason::MutableBinding => {
                "a `mut` binding, reassigned over its lifetime".to_owned()
            },
            LiveReason::Undefined => "couldn't be reduced to a formula".to_owned(),
        }
    }
}

/// What a top-level node does, as far as tracing it showed.
#[derive(Debug, Clone)]
pub enum Operation {
    /// A literal: an overridable `--name=value` parameter.
    Param { default: Expr },
    /// `name = t<TICKER>;`: a fetch of external data, always kept live.
    Ticker { symbol: String },
    /// A `mut` binding: reassigned over its lifetime, never frozen.
    Mutable { expr: Expr },
    /// Frozen to a constant.
    Fixed { value: FrozenLit, original: Expr },
    /// Frozen to a loop-free expression in terms of params.
    Formula { expr: Expr, original: Expr },
    /// Kept as the code that it was written as.
    Live { expr: Expr, reason: LiveReason },
}

pub enum SpecOperation {
    Param { default: SpecExpr },
    Ticker { symbol: Seq<char> },
    Mutable { expr: SpecExpr },
    Fixed { value: SpecLit, original: SpecExpr },
    Formula { expr: SpecExpr, original: SpecExpr },
    Live { expr: SpecExpr, reason: LiveReason },
}

impl View for Operation {
    type V = SpecOperation;

    open spec fn view(&self) -> SpecOperation {
        match *self {
            Operation::Param { default } => SpecOperation::Param { default: default@ },
            Operation::Ticker { symbol } => SpecOperation::Ticker { symbol: symbol@ },
            Operation::Mutable { expr } => SpecOperation::Mutable { expr: expr@ },
            Operation::Fixed { value, original } => SpecOperation::Fixed {
                value: value@,
                original: original@,
            },
            Operation::Formula { expr, original } => SpecOperation::Formula {
                expr: expr@,
                original: original@,
            },
            Operation::Live { expr, reason } => SpecOperation::Live { expr: expr@, reason },
        }
    }
}

#[derive(Debug, Clone)]
pub struct DagNode {
    pub id: NodeId,
    pub name: String,
    pub op: Operation,
    /// The nodes whose names the expression mentions.
    pub deps: Vec<NodeId>,
}

pub struct SpecNode {
    pub id: usize,
    pub name: Seq<char>,
    pub op: SpecOperation,
    pub deps: Seq<usize>,
}

impl View for DagNode {
    type V = SpecNode;

    open spec fn view(&self) -> SpecNode {
        SpecNode { id: self.id, name: self.name@, op: self.op@, deps: self.deps@ }
    }
}

#[derive(Debug)]
pub struct Dag {
    pub nodes: Vec<DagNode>,
    /// Maps a name to the latest node assigned to it.
    pub env: NameMap<NodeId>,
}

pub struct SpecDag {
    pub nodes: Seq<SpecNode>,
    pub env: Seq<(Seq<char>, usize)>,
}

impl View for Dag {
    type V = SpecDag;

    open spec fn view(&self) -> SpecDag {
        SpecDag { nodes: self.nodes@.map_values(|n: DagNode| n@), env: self.env@ }
    }
}

/// A graph without nodes.
pub open spec fn empty_dag() -> SpecDag {
    SpecDag { nodes: Seq::empty(), env: Seq::empty() }
}

/// Every name stands for a node that there is.
pub open spec fn dag_wf(d: SpecDag) -> bool {
    forall|i: int| 0 <= i < d.env.len() ==> (#[trigger] d.env[i]).1 < d.nodes.len()
}

/// The latest node for `name`.
pub open spec fn node_of(d: SpecDag, name: Seq<char>) -> Option<SpecNode> {
    match names::lookup(d.env, name) {
        Some(id) => Some(d.nodes[id as int]),
        None => None,
    }
}

/// The latest node of each name, for the first `n` names.
pub open spec fn latest_nodes(d: SpecDag, n: int) -> Seq<SpecNode> {
    Seq::new(n as nat, |i: int| d.nodes[d.env[i].1 as int])
}

/// The latest nodes that `p` holds of, in the order of the names.
pub open spec fn chosen(d: SpecDag, p: spec_fn(SpecNode) -> bool) -> Seq<SpecNode> {
    latest_nodes(d, d.env.len() as int).filter(p)
}

/// The views of a list of nodes.
pub open spec fn nodes_view(ns: Seq<&DagNode>) -> Seq<SpecNode> {
    ns.map_values(|n: &DagNode| n@)
}

/// What may go wrong with a graph.
#[derive(Debug, Clone)]
pub struct DagError {
    pub message: String,
}

impl DagError {
    /// The message.
    pub fn to_text(&self) -> (r: String)
        ensures
            r@ == self.message@,
    {
        self.message.clone()
    }
}

/// The six kinds of operations.
#[derive(Debug, Clone, Copy, PartialEq, Eq, Structural)]
pub enum OperationKind {
    Param,
    Ticker,
    Mutable,
    Fixed,
    Formula,
    Live,
}

pub open spec fn kind_of(op: SpecOperation) -> OperationKind {
    match op {
        SpecOperation::Param { .. } => OperationKind::Param,
        SpecOperation::Ticker { .. } => OperationKind::Ticker,
        SpecOperation::Mutable { .. } => OperationKind::Mutable,
        SpecOperation::Fixed { .. } => OperationKind::Fixed,
        SpecOperation::Formula { .. } => OperationKind::Formula,
        SpecOperation::Live { .. } => OperationKind::Live,
    }
}

/// The latest nodes whose operation is of the kind `k`.
pub open spec fn nodes_of_kind(d: SpecDag, k: OperationKind) -> Seq<SpecNode> {
    chosen(d, |n: SpecNode| kind_of(n.op) == k)
}

impl Operation {
    pub fn kind(&self) -> (r: OperationKind)
        ensures
            r == kind_of(self@),
    {
        match self {
            Operation::Param { .. } => OperationKind::Param,
            Operation::Ticker { .. } => OperationKind::Ticker,
            Operation::Mutable { .. } => OperationKind::Mutable,
            Operation::Fixed { .. } => OperationKind::Fixed,
            Operation::Formula { .. } => OperationKind::Formula,
            Operation::Live { .. } => OperationKind::Live,
        }
    }
}

impl Default for Dag {
    fn default() -> (r: Dag)
        ensures
            r@ == empty_dag(),
    {
        Dag::new()
    }
}

impl Dag {
    /// A graph without nodes.
    pub fn new() -> (r: Dag)
        ensures
            r@ == empty_dag(),
    {
        let r = Dag { nodes: Vec::new(), env: NameMap::new() };
        proof {
            assert(r@.nodes =~= Seq::<SpecNode>::empty());
        }
        r
    }

    /// The latest node for `name`.
    pub fn get(&self, name: &str) -> (r: Option<&DagNode>)
        requires
            dag_wf(self@),
        ensures
            match r {
                Some(n) => node_of(self@, name@) == Some(n@),
                None => node_of(self@, name@) is None,
            },
    {
        proof {
            names::lemma_find(self@.env, name@, 0);
        }
        match self.env.get(name) {
            Some(id) => Some(&self.nodes[*id]),
            None => None,
        }
    }

    /// The latest nodes whose operation is of the kind `k`.
    pub fn latest(&self, k: OperationKind) -> (r: Vec<&DagNode>)
        requires
            dag_wf(self@),
        ensures
            nodes_view(r@) == nodes_of_kind(self@, k),
    {
        let ghost p = |n: SpecNode| kind_of(n.op) == k;
        let mut out: Vec<&DagNode> = Vec::new();
        proof {
            assert(latest_nodes(self@, 0) =~= Seq::<SpecNode>::empty());
            reveal(Seq::filter);
            assert(nodes_view(out@) =~= latest_nodes(self@, 0).filter(p));
        }
        for i in 0..self.env.entries.len()
            invariant
                dag_wf(self@),
                p == (|n: SpecNode| kind_of(n.op) == k),
                nodes_view(out@) == latest_nodes(self@, i as int).filter(p),
        {
            proof {
                assert(self@.env[i as int].1 == self.env.entries@[i as int].1);
                assert(self@.env[i as int].1 < self@.nodes.len());
                reveal(Seq::filter);
                assert(latest_nodes(self@, i + 1).drop_last() =~= latest_nodes(self@, i as int));
            }
            let node = &self.nodes[self.env.entries[i].1];
            let ghost before = nodes_view(out@);
            if node.op.kind() == k {
                out.push(node);
                proof {
                    assert(nodes_view(out@) =~= before.push(node@));
                }
            }
        }
        out
    }

    pub fn parameters(&self) -> (r: Vec<&DagNode>)
        requires
            dag_wf(self@),
        ensures
            nodes_view(r@) == nodes_of_kind(self@, OperationKind::Param),
    {
        self.latest(OperationKind::Param)
    }

    pub fn tickers(&self) -> (r: Vec<&DagNode>)
        requires
            dag_wf(self@),
        ensures
            nodes_view(r@) == nodes_of_kind(self@, OperationKind::Ticker),
    {
        self.latest(OperationKind::Ticker)
    }

    pub fn fixed(&self) -> (r: Vec<&DagNode>)
        requires
            dag_wf(self@),
        ensures
            nodes_view(r@) == nodes_of_kind(self@, OperationKind::Fixed),
    {
        self.latest(OperationKind::Fixed)
    }

    pub fn formulas(&self) -> (r: Vec<&DagNode>)
        requires
            dag_wf(self@),
        ensures
            nodes_view(r@) == nodes_of_kind(self@, OperationKind::Formula),
    {
        self.latest(OperationKind::Formula)
    }

    pub fn mutable(&self) -> (r: Vec<&DagNode>)
        requires
            dag_wf(self@),
        ensures
            nodes_view(r@) == nodes_of_kind(self@, OperationKind::Mutable),
    {
        self.latest(OperationKind::Mutable)
    }

    pub fn live(&self) -> (r: Vec<&DagNode>)
        requires
            dag_wf(self@),
        ensures
            nodes_view(r@) == nodes_of_kind(self@, OperationKind::Live),
    {
        self.latest(OperationKind::Live)
    }
}

} // verus!
