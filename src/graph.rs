use vstd::prelude::*;

verus! {

/// Kind of a relationship between two items.
#[derive(Clone, Copy, PartialEq, Eq, Debug, Structural)]
pub enum EdgeKind {
    /// Structural containment: the source owns the target.
    Owns,
    /// The source refers to the target.
    Uses,
}

/// A directed edge between two node indices.
#[derive(Clone, Copy, PartialEq, Eq, Debug, Structural)]
pub struct Edge {
    pub source: usize,
    pub target: usize,
    pub kind: EdgeKind,
}

/// Kind of the item behind a node.
#[derive(Clone, Copy, PartialEq, Eq, Debug, Structural)]
pub enum SymbolKind {
    Module,
    Function,
    Adt,
    Variant,
    Const,
    Static,
    Trait,
    TraitAlias,
    TypeAlias,
    BuiltinType,
    Macro,
}

/// What is known of a resolved item.
#[derive(Clone, Copy, PartialEq, Eq, Debug, Structural)]
pub struct Symbol {
    pub kind: SymbolKind,
    /// For a module: whether it is the root module of its crate.
    pub is_crate_root: bool,
    /// For a function: whether it carries the test attribute.
    pub is_test: bool,
    /// The crate that defines the item, where there is one.
    pub krate: Option<u64>,
}

/// An item of the graph: its path and, unless it is synthetic, its symbol.
pub struct Node {
    pub path: Vec<String>,
    pub symbol: Option<Symbol>,
}

/// A directed multigraph with stable node indices: a removed node leaves
/// `None` in its slot.
pub struct Graph {
    pub nodes: Vec<Option<Node>>,
    pub edges: Vec<Edge>,
}

pub open spec fn is_present(nodes: Seq<Option<Node>>, n: int) -> bool {
    0 <= n < nodes.len() && nodes[n].is_some()
}

/// Every edge joins two present nodes.
pub open spec fn edges_wf(nodes: Seq<Option<Node>>, edges: Seq<Edge>) -> bool {
    forall|i: int|
        0 <= i < edges.len() ==> is_present(nodes, (#[trigger] edges[i]).source as int)
            && is_present(nodes, edges[i].target as int)
}

impl Graph {
    pub open spec fn wf(&self) -> bool {
        edges_wf(self.nodes@, self.edges@)
    }

    pub open spec fn contains_node(&self, n: int) -> bool {
        is_present(self.nodes@, n)
    }

    /// Whether an edge `(source, target, kind)` is in the graph.
    pub open spec fn has_edge(&self, source: usize, target: usize, kind: EdgeKind) -> bool {
        self.edges@.contains(Edge { source, target, kind })
    }
}

/// A copy of `p`, segment by segment.
pub fn copy_path(p: &Vec<String>) -> (r: Vec<String>)
    ensures
        r@ == p@,
{
    let mut r: Vec<String> = Vec::new();
    let mut i: usize = 0;
    while i < p.len()
        invariant
            i <= p@.len(),
            r@ == p@.subrange(0, i as int),
        decreases p@.len() - i,
    {
        r.push(p[i].clone());
        i = i + 1;
        assert(r@ =~= p@.subrange(0, i as int));
    }
    assert(p@.subrange(0, p@.len() as int) == p@);
    r
}

/// A copy of a node.
pub fn copy_node(n: &Node) -> (r: Node)
    ensures
        r.path@ == n.path@,
        r.symbol == n.symbol,
{
    Node { path: copy_path(&n.path), symbol: n.symbol }
}

} // verus!
