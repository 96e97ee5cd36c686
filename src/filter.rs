use vstd::prelude::*;

use crate::graph::{copy_node, edges_wf, is_present, Edge, EdgeKind, Graph, Node, Symbol, SymbolKind};
use crate::pattern::{matches_spec, parse_spec, path_view, PathPattern, PathView};
use crate::reach::{
    endpoints_below, flagged, layers, leads_to, lemma_layers_grow, reach_within, step, Walk,
};
use crate::retain::{is_extern_spec, retain_spec, Options};

verus! {

/// The crate under analysis.
pub struct Crate {
    pub id: u64,
    /// Display name, the focus when the options give none.
    pub name: String,
}

/// Why a graph could not be filtered.
#[derive(Clone, Copy, PartialEq, Eq, Debug, Structural)]
pub enum FilterError {
    /// The focus specification is malformed.
    PatternSyntax,
    /// No node matches the focus specification.
    FocusNotFound,
}

/// Reduces a graph to the view that its options describe.
pub struct Filter {
    pub options: Options,
    pub krate: Crate,
}

/// Nodes whose path is non-empty and matches one of the alternatives.
pub open spec fn focus_set(nodes: Seq<Option<Node>>, alts: Seq<PathView>) -> Set<nat> {
    Set::new(
        |i: nat|
            is_present(nodes, i as int) && nodes[i as int].unwrap().path@.len() > 0 && matches_spec(
                alts,
                path_view(nodes[i as int].unwrap().path@),
            ),
    )
}

pub open spec fn depth_limit(o: Options) -> nat {
    match o.max_depth {
        Some(d) => d as nat,
        None => usize::MAX as nat,
    }
}

/// Nodes within the depth limit of a focus node, edges taken both ways.
pub open spec fn near_focus(g: Graph, o: Options, alts: Seq<PathView>) -> Set<nat> {
    layers(g.edges@, focus_set(g.nodes@, alts), depth_limit(o), Walk::Undirected)
}

/// Nodes that the root reaches through `Owns` edges.
pub open spec fn owned_by_root(g: Graph, root: nat) -> Set<nat> {
    layers(g.edges@, set![root], usize::MAX as nat, Walk::OwnsForward)
}

/// The nodes that reduction removes: those under the root's containment tree
/// that have a symbol, are not the root, and are out of depth or not retained.
pub open spec fn drop_set(g: Graph, root: nat, o: Options, krate: u64, alts: Seq<PathView>) -> Set<
    nat,
> {
    Set::new(
        |n: nat|
            owned_by_root(g, root).contains(n) && is_present(g.nodes@, n as int) && g.nodes@[n as int].unwrap().symbol.is_some()
                && n != root && !(near_focus(g, o, alts).contains(n) && retain_spec(
                o,
                krate,
                g.nodes@[n as int].unwrap().symbol.unwrap(),
            )),
    )
}

/// Source of the first `Owns` edge at or after `i` that points at `n`.
pub open spec fn first_owner(edges: Seq<Edge>, n: nat, i: int) -> Option<nat>
    decreases edges.len() - i,
{
    if i < 0 || i >= edges.len() {
        None
    } else if edges[i].kind == EdgeKind::Owns && edges[i].target == n {
        Some(edges[i].source as nat)
    } else {
        first_owner(edges, n, i + 1)
    }
}

/// The nearest node at or above `n` in the containment tree that is not
/// dropped, climbing at most `fuel` owners.
pub open spec fn survivor(edges: Seq<Edge>, d: Set<nat>, n: nat, fuel: nat) -> Option<nat>
    decreases fuel,
{
    if !d.contains(n) {
        Some(n)
    } else if fuel == 0 {
        None
    } else {
        match first_owner(edges, n, 0) {
            Some(p) => survivor(edges, d, p, (fuel - 1) as nat),
            None => None,
        }
    }
}

/// Each edge of `es` into a kept node, moved to start at the survivor of its
/// source; edges with no survivor are gone.
pub open spec fn reattach(es: Seq<Edge>, all: Seq<Edge>, d: Set<nat>, fuel: nat) -> Seq<Edge>
    decreases es.len(),
{
    if es.len() == 0 {
        es
    } else {
        let rest = reattach(es.drop_last(), all, d, fuel);
        let e = es.last();
        if d.contains(e.target as nat) {
            rest
        } else {
            match survivor(all, d, e.source as nat, fuel) {
                Some(s) => rest.push(Edge { source: s as usize, target: e.target, kind: e.kind }),
                None => rest,
            }
        }
    }
}

/// The `Owns` edges of `es`, in order.
pub open spec fn owns_only(es: Seq<Edge>) -> Seq<Edge>
    decreases es.len(),
{
    if es.len() == 0 {
        es
    } else if es.last().kind == EdgeKind::Owns {
        owns_only(es.drop_last()).push(es.last())
    } else {
        owns_only(es.drop_last())
    }
}

/// The first occurrence of each edge of `es`, in order.
pub open spec fn dedup(es: Seq<Edge>) -> Seq<Edge>
    decreases es.len(),
{
    if es.len() == 0 {
        es
    } else if es.drop_last().contains(es.last()) {
        dedup(es.drop_last())
    } else {
        dedup(es.drop_last()).push(es.last())
    }
}

/// The edges of `es` with both ends in `r`, in order.
pub open spec fn within(es: Seq<Edge>, r: Set<nat>) -> Seq<Edge>
    decreases es.len(),
{
    if es.len() == 0 {
        es
    } else if r.contains(es.last().source as nat) && r.contains(es.last().target as nat) {
        within(es.drop_last(), r).push(es.last())
    } else {
        within(es.drop_last(), r)
    }
}

/// Edges after reduction, the optional strip of `Uses` edges and dedup.
pub open spec fn reduced_edges(g: Graph, d: Set<nat>, o: Options) -> Seq<Edge> {
    let moved = reattach(g.edges@, g.edges@, d, g.nodes@.len());
    dedup(
        if o.uses {
            moved
        } else {
            owns_only(moved)
        },
    )
}

/// Nodes that the root reaches in the reduced graph.
pub open spec fn reachable_set(es: Seq<Edge>, root: nat) -> Set<nat> {
    layers(es, set![root], usize::MAX as nat, Walk::Forward)
}

/// `out` is what filtering `g` from `root` gives, with the focus `alts`.
pub open spec fn filtered(
    g: Graph,
    root: nat,
    o: Options,
    krate: u64,
    alts: Seq<PathView>,
    out: Graph,
) -> bool {
    let d = drop_set(g, root, o, krate, alts);
    let es = reduced_edges(g, d, o);
    let r = reachable_set(es, root);
    &&& out.nodes@.len() == g.nodes@.len()
    &&& forall|i: int|
        0 <= i < g.nodes@.len() ==> {
            &&& (#[trigger] out.nodes@[i]).is_some() == (is_present(g.nodes@, i) && !d.contains(
                i as nat,
            ) && r.contains(i as nat))
            &&& out.nodes@[i].is_some() ==> out.nodes@[i].unwrap().path@
                == g.nodes@[i].unwrap().path@ && out.nodes@[i].unwrap().symbol
                == g.nodes@[i].unwrap().symbol
        }
    &&& out.edges@ == within(es, r)
}

/// The focus specification that `f` filters with.
pub open spec fn focus_text(f: Filter) -> Seq<char> {
    match f.options.focus_on {
        Some(s) => s@,
        None => f.krate.name@,
    }
}

impl Filter {
    pub fn new(options: Options, krate: Crate) -> (r: Self)
        ensures
            r.options == options,
            r.krate == krate,
    {
        Filter { options, krate }
    }

    fn is_extern(&self, sym: &Symbol) -> (r: bool)
        ensures
            r == is_extern_spec(self.krate.id, *sym),
    {
        match sym.krate {
            Some(k) => k != self.krate.id,
            None => true,
        }
    }

    fn should_retain_module(&self, sym: &Symbol) -> (r: bool)
        ensures
            r == (self.options.modules || sym.is_crate_root),
    {
        if !self.options.modules {
            return sym.is_crate_root;
        }
        true
    }

    fn should_retain_function(&self, sym: &Symbol) -> (r: bool)
        ensures
            r == (self.options.fns && (self.options.tests || !sym.is_test)),
    {
        if !self.options.fns {
            return false;
        }
        if !self.options.tests && sym.is_test {
            return false;
        }
        true
    }

    fn should_retain_adt(&self) -> (r: bool)
        ensures
            r == self.options.types,
    {
        self.options.types
    }

    fn should_retain_builtin_type(&self) -> (r: bool)
        ensures
            r == self.options.types,
    {
        self.options.types
    }

    fn should_retain_trait(&self) -> (r: bool)
        ensures
            r == self.options.traits,
    {
        self.options.traits
    }

    /// Whether a node with symbol `sym` is kept.
    pub fn should_retain_moduledef(&self, sym: &Symbol) -> (r: bool)
        ensures
            r == retain_spec(self.options, self.krate.id, *sym),
    {
        if !self.options.externs && self.is_extern(sym) {
            return false;
        }
        match sym.kind {
            SymbolKind::Module => self.should_retain_module(sym),
            SymbolKind::Function => self.should_retain_function(sym),
            SymbolKind::Adt => self.should_retain_adt(),
            SymbolKind::BuiltinType => self.should_retain_builtin_type(),
            SymbolKind::Trait => self.should_retain_trait(),
            SymbolKind::Variant | SymbolKind::Const | SymbolKind::Static | SymbolKind::TraitAlias
            | SymbolKind::TypeAlias | SymbolKind::Macro => false,
        }
    }
}

/// Source of the first `Owns` edge into `n`.
fn find_owner(edges: &Vec<Edge>, n: usize) -> (r: Option<usize>)
    ensures
        match r {
            Some(p) => first_owner(edges@, n as nat, 0) == Some(p as nat),
            None => first_owner(edges@, n as nat, 0).is_none(),
        },
{
    let mut i: usize = 0;
    while i < edges.len()
        invariant
            i <= edges@.len(),
            first_owner(edges@, n as nat, 0) == first_owner(edges@, n as nat, i as int),
        decreases edges@.len() - i,
    {
        if edges[i].kind == EdgeKind::Owns && edges[i].target == n {
            return Some(edges[i].source);
        }
        i = i + 1;
    }
    None
}

/// The nearest kept node at or above `n`, climbing at most as many owners as
/// there are nodes.
fn find_survivor(edges: &Vec<Edge>, drop: &Vec<bool>, n: usize) -> (r: Option<usize>)
    requires
        n < drop@.len(),
        endpoints_below(edges@, drop@.len()),
    ensures
        match r {
            Some(s) => survivor(edges@, flagged(drop@), n as nat, drop@.len()) == Some(s as nat)
                && s < drop@.len(),
            None => survivor(edges@, flagged(drop@), n as nat, drop@.len()).is_none(),
        },
{
    let ghost d = flagged(drop@);
    let mut cur = n;
    let mut fuel = drop.len();
    while drop[cur]
        invariant
            cur < drop@.len(),
            fuel <= drop@.len(),
            d == flagged(drop@),
            endpoints_below(edges@, drop@.len()),
            survivor(edges@, d, n as nat, drop@.len() as nat) == survivor(
                edges@,
                d,
                cur as nat,
                fuel as nat,
            ),
        decreases fuel,
    {
        assert(d.contains(cur as nat));
        if fuel == 0 {
            return None;
        }
        match find_owner(edges, cur) {
            Some(p) => {
                proof {
                    lemma_first_owner_below(edges@, cur as nat, 0, drop@.len());
                }
                cur = p;
                fuel = fuel - 1;
            },
            None => {
                return None;
            },
        }
    }
    assert(!d.contains(cur as nat));
    Some(cur)
}

proof fn lemma_first_owner_below(edges: Seq<Edge>, n: nat, i: int, len: nat)
    requires
        endpoints_below(edges, len),
    ensures
        first_owner(edges, n, i) matches Some(p) ==> p < len,
    decreases edges.len() - i,
{
    if 0 <= i < edges.len() {
        lemma_first_owner_below(edges, n, i + 1, len);
    }
}

/// Moves each edge out of a dropped node to its survivor.
fn reattach_edges(edges: &Vec<Edge>, drop: &Vec<bool>) -> (r: Vec<Edge>)
    requires
        endpoints_below(edges@, drop@.len()),
    ensures
        r@ == reattach(edges@, edges@, flagged(drop@), drop@.len()),
        endpoints_below(r@, drop@.len()),
{
    let ghost d = flagged(drop@);
    let mut out: Vec<Edge> = Vec::new();
    let mut i: usize = 0;
    while i < edges.len()
        invariant
            d == flagged(drop@),
            endpoints_below(edges@, drop@.len()),
            i <= edges@.len(),
            out@ == reattach(edges@.subrange(0, i as int), edges@, d, drop@.len()),
            endpoints_below(out@, drop@.len()),
        decreases edges@.len() - i,
    {
        let e = edges[i];
        assert(edges@.subrange(0, i + 1).drop_last() == edges@.subrange(0, i as int));
        assert(edges@.subrange(0, i + 1).last() == e);
        if !drop[e.target] {
            match find_survivor(edges, drop, e.source) {
                Some(s) => {
                    out.push(Edge { source: s, target: e.target, kind: e.kind });
                },
                None => {},
            }
        }
        i = i + 1;
    }
    assert(edges@.subrange(0, edges@.len() as int) == edges@);
    out
}

/// The `Owns` edges of `es`.
fn owns_edges(es: &Vec<Edge>, n: usize) -> (r: Vec<Edge>)
    requires
        endpoints_below(es@, n as nat),
    ensures
        r@ == owns_only(es@),
        endpoints_below(r@, n as nat),
{
    let mut out: Vec<Edge> = Vec::new();
    let mut i: usize = 0;
    while i < es.len()
        invariant
            endpoints_below(es@, n as nat),
            i <= es@.len(),
            out@ == owns_only(es@.subrange(0, i as int)),
            endpoints_below(out@, n as nat),
        decreases es@.len() - i,
    {
        let e = es[i];
        assert(es@.subrange(0, i + 1).drop_last() == es@.subrange(0, i as int));
        if e.kind == EdgeKind::Owns {
            out.push(e);
        }
        i = i + 1;
    }
    assert(es@.subrange(0, es@.len() as int) == es@);
    out
}

/// The first occurrence of each edge of `es`.
fn dedup_edges(es: &Vec<Edge>, n: usize) -> (r: Vec<Edge>)
    requires
        endpoints_below(es@, n as nat),
    ensures
        r@ == dedup(es@),
        endpoints_below(r@, n as nat),
{
    let mut out: Vec<Edge> = Vec::new();
    let mut i: usize = 0;
    while i < es.len()
        invariant
            endpoints_below(es@, n as nat),
            i <= es@.len(),
            out@ == dedup(es@.subrange(0, i as int)),
            endpoints_below(out@, n as nat),
        decreases es@.len() - i,
    {
        let e = es[i];
        let ghost pre = es@.subrange(0, i as int);
        assert(es@.subrange(0, i + 1).drop_last() == pre);
        let mut seen = false;
        let mut j: usize = 0;
        while j < i
            invariant
                i < es@.len(),
                e == es@[i as int],
                pre == es@.subrange(0, i as int),
                j <= i,
                seen == (exists|x: int| 0 <= x < j && es@[x] == e),
            decreases i - j,
        {
            if es[j] == e {
                seen = true;
            }
            j = j + 1;
        }
        assert(seen == pre.contains(e)) by {
            if seen {
                let x = choose|x: int| 0 <= x < i && es@[x] == e;
                assert(pre[x] == e);
            }
        }
        if !seen {
            out.push(e);
        }
        i = i + 1;
    }
    assert(es@.subrange(0, es@.len() as int) == es@);
    out
}

/// The edges of `es` with both ends flagged in `r`.
fn edges_within(es: &Vec<Edge>, r: &Vec<bool>) -> (out: Vec<Edge>)
    requires
        endpoints_below(es@, r@.len()),
    ensures
        out@ == within(es@, flagged(r@)),
{
    let mut out: Vec<Edge> = Vec::new();
    let mut i: usize = 0;
    while i < es.len()
        invariant
            endpoints_below(es@, r@.len()),
            i <= es@.len(),
            out@ == within(es@.subrange(0, i as int), flagged(r@)),
        decreases es@.len() - i,
    {
        let e = es[i];
        assert(es@.subrange(0, i + 1).drop_last() == es@.subrange(0, i as int));
        if r[e.source] && r[e.target] {
            out.push(e);
        }
        i = i + 1;
    }
    assert(es@.subrange(0, es@.len() as int) == es@);
    out
}

/// `n` flags, the one at `k` set.
fn single_flag(n: usize, k: usize) -> (r: Vec<bool>)
    requires
        k < n,
    ensures
        r@.len() == n,
        flagged(r@) == set![k as nat],
{
    let mut r: Vec<bool> = Vec::new();
    let mut i: usize = 0;
    while i < n
        invariant
            i <= n,
            r@.len() == i,
            forall|j: int| 0 <= j < i ==> r@[j] == (j == k),
        decreases n - i,
    {
        r.push(i == k);
        i = i + 1;
    }
    assert(flagged(r@) =~= set![k as nat]);
    r
}

impl Filter {
    /// Reduces `graph` to the view that the options describe, keeping `root_idx`.
    pub fn filter(self, graph: &Graph, root_idx: usize) -> (r: Result<Graph, FilterError>)
        requires
            graph.wf(),
            graph.contains_node(root_idx as int),
        ensures
            match parse_spec(focus_text(self)) {
                None => r == Err::<Graph, FilterError>(FilterError::PatternSyntax),
                Some(alts) => if focus_set(graph.nodes@, alts) == Set::<nat>::empty() {
                    r == Err::<Graph, FilterError>(FilterError::FocusNotFound)
                } else {
                    r matches Ok(out) && filtered(
                        *graph,
                        root_idx as nat,
                        self.options,
                        self.krate.id,
                        alts,
                        out,
                    )
                },
            },
            r matches Ok(out) ==> {
                &&& out.wf()
                &&& out.contains_node(root_idx as int)
                &&& forall|i: int|
                    out.contains_node(i) ==> reachable_set(out.edges@, root_idx as nat).contains(
                        i as nat,
                    )
                &&& no_dup(out.edges@)
                &&& !self.options.uses ==> forall|k: int|
                    0 <= k < out.edges@.len() ==> out.edges@[k].kind == EdgeKind::Owns
            },
    {
        let n = graph.nodes.len();
        let text = match &self.options.focus_on {
            Some(s) => s.clone(),
            None => self.krate.name.clone(),
        };
        let pattern = match PathPattern::parse(&text) {
            Some(p) => p,
            None => {
                return Err(FilterError::PatternSyntax);
            },
        };
        let ghost alts = pattern@;
        let ghost fs = focus_set(graph.nodes@, alts);

        // Focus nodes:
        let mut focus: Vec<bool> = Vec::new();
        let mut any = false;
        let mut i: usize = 0;
        while i < n
            invariant
                n == graph.nodes@.len(),
                pattern.wf(),
                alts == pattern@,
                fs == focus_set(graph.nodes@, alts),
                i <= n,
                focus@.len() == i,
                forall|j: int| 0 <= j < i ==> focus@[j] == fs.contains(j as nat),
                any == (exists|j: int| 0 <= j < i && focus@[j]),
            decreases n - i,
        {
            let hit = match &graph.nodes[i] {
                Some(node) => node.path.len() > 0 && pattern.matches(&node.path),
                None => false,
            };
            let ghost before = focus@;
            focus.push(hit);
            any = any || hit;
            proof {
                if hit {
                    assert(focus@[i as int]);
                } else {
                    assert forall|j: int| 0 <= j < i implies focus@[j] == before[j] by {}
                }
            }
            i = i + 1;
        }
        if !any {
            assert(fs =~= Set::<nat>::empty()) by {
                assert forall|x: nat| !fs.contains(x) by {
                    if fs.contains(x) {
                        assert(focus@[x as int]);
                    }
                }
            }
            return Err(FilterError::FocusNotFound);
        }
        assert(fs != Set::<nat>::empty()) by {
            let j = choose|j: int| 0 <= j < n && focus@[j];
            assert(fs.contains(j as nat));
        }
        assert(flagged(focus@) =~= fs);
        assert(endpoints_below(graph.edges@, n as nat)) by {
            assert forall|k: int| 0 <= k < graph.edges@.len() implies (#[trigger] graph.edges@[k]).source
                < n && graph.edges@[k].target < n by {
                assert(is_present(graph.nodes@, graph.edges@[k].source as int));
                assert(is_present(graph.nodes@, graph.edges@[k].target as int));
            }
        }

        // Nodes near the focus, and nodes in the root's containment tree:
        let depth = match self.options.max_depth {
            Some(d) => d,
            None => usize::MAX,
        };
        let near = reach_within(&graph.edges, focus, depth, Walk::Undirected);
        let owned = reach_within(
            &graph.edges,
            single_flag(n, root_idx),
            usize::MAX,
            Walk::OwnsForward,
        );

        // Nodes to drop:
        let ghost d = drop_set(*graph, root_idx as nat, self.options, self.krate.id, alts);
        let mut drop: Vec<bool> = Vec::new();
        let mut i: usize = 0;
        while i < n
            invariant
                n == graph.nodes@.len(),
                near@.len() == n,
                owned@.len() == n,
                flagged(near@) == near_focus(*graph, self.options, alts),
                flagged(owned@) == owned_by_root(*graph, root_idx as nat),
                d == drop_set(*graph, root_idx as nat, self.options, self.krate.id, alts),
                i <= n,
                drop@.len() == i,
                forall|j: int| 0 <= j < i ==> drop@[j] == d.contains(j as nat),
            decreases n - i,
        {
            let gone = owned[i] && i != root_idx && match &graph.nodes[i] {
                Some(node) => match node.symbol {
                    Some(sym) => !(near[i] && self.should_retain_moduledef(&sym)),
                    None => false,
                },
                None => false,
            };
            assert(owned@[i as int] == owned_by_root(*graph, root_idx as nat).contains(i as nat));
            assert(near@[i as int] == near_focus(*graph, self.options, alts).contains(i as nat));
            drop.push(gone);
            i = i + 1;
        }
        assert(flagged(drop@) =~= d);

        // Reattach, strip, dedup:
        let moved = reattach_edges(&graph.edges, &drop);
        let kept = if self.options.uses {
            moved
        } else {
            owns_edges(&moved, n)
        };
        let es = dedup_edges(&kept, n);
        assert(es@ == reduced_edges(*graph, d, self.options));

        // Keep what the root reaches:
        let reach = reach_within(&es, single_flag(n, root_idx), usize::MAX, Walk::Forward);
        let ghost rs = reachable_set(es@, root_idx as nat);
        let mut nodes: Vec<Option<Node>> = Vec::new();
        let mut i: usize = 0;
        while i < n
            invariant
                n == graph.nodes@.len(),
                reach@.len() == n,
                drop@.len() == n,
                flagged(reach@) == rs,
                flagged(drop@) == d,
                i <= n,
                nodes@.len() == i,
                forall|j: int|
                    0 <= j < i ==> {
                        &&& (#[trigger] nodes@[j]).is_some() == (is_present(graph.nodes@, j)
                            && !d.contains(j as nat) && rs.contains(j as nat))
                        &&& nodes@[j].is_some() ==> nodes@[j].unwrap().path@
                            == graph.nodes@[j].unwrap().path@ && nodes@[j].unwrap().symbol
                            == graph.nodes@[j].unwrap().symbol
                    },
            decreases n - i,
        {
            assert(reach@[i as int] == rs.contains(i as nat));
            assert(drop@[i as int] == d.contains(i as nat));
            let slot = if reach[i] && !drop[i] {
                match &graph.nodes[i] {
                    Some(node) => Some(copy_node(node)),
                    None => None,
                }
            } else {
                None
            };
            nodes.push(slot);
            i = i + 1;
        }
        let edges = edges_within(&es, &reach);
        let out = Graph { nodes, edges };
        proof {
            lemma_filtered_wf(*graph, root_idx as nat, self.options, self.krate.id, alts, out);
            lemma_filtered_laws(*graph, root_idx as nat, self.options, self.krate.id, alts, out);
        }
        Ok(out)
    }
}

/// No edge occurs twice.
pub open spec fn no_dup(es: Seq<Edge>) -> bool {
    forall|i: int, j: int| 0 <= i < j < es.len() ==> es[i] != es[j]
}

proof fn lemma_dedup_from(es: Seq<Edge>)
    ensures
        forall|e: Edge| dedup(es).contains(e) ==> es.contains(e),
        no_dup(dedup(es)),
    decreases es.len(),
{
    if es.len() > 0 {
        let pre = es.drop_last();
        lemma_dedup_from(pre);
        assert forall|e: Edge| pre.contains(e) implies es.contains(e) by {
            let k = choose|k: int| 0 <= k < pre.len() && pre[k] == e;
            assert(es[k] == e);
        }
        if !pre.contains(es.last()) {
            let d = dedup(pre).push(es.last());
            assert forall|e: Edge| d.contains(e) implies es.contains(e) by {
                let k = choose|k: int| 0 <= k < d.len() && d[k] == e;
                if k < d.len() - 1 {
                    assert(dedup(pre)[k] == e);
                } else {
                    assert(es[es.len() - 1] == e);
                }
            }
            assert forall|i: int, j: int| 0 <= i < j < d.len() implies d[i] != d[j] by {
                if j == d.len() - 1 {
                    assert(dedup(pre)[i] == d[i]);
                    assert(dedup(pre).contains(d[i]));
                }
            }
        }
    }
}

proof fn lemma_owns_only_owns(es: Seq<Edge>)
    ensures
        forall|e: Edge| owns_only(es).contains(e) ==> e.kind == EdgeKind::Owns,
    decreases es.len(),
{
    if es.len() > 0 {
        lemma_owns_only_owns(es.drop_last());
        let o = owns_only(es);
        assert forall|e: Edge| o.contains(e) implies e.kind == EdgeKind::Owns by {
            let k = choose|k: int| 0 <= k < o.len() && o[k] == e;
            if k < owns_only(es.drop_last()).len() {
                assert(owns_only(es.drop_last())[k] == e);
                assert(owns_only(es.drop_last()).contains(e));
            } else {
                assert(es.last().kind == EdgeKind::Owns);
            }
        }
    }
}

proof fn lemma_within(es: Seq<Edge>, r: Set<nat>)
    ensures
        forall|e: Edge|
            within(es, r).contains(e) <==> (es.contains(e) && r.contains(e.source as nat)
                && r.contains(e.target as nat)),
        no_dup(es) ==> no_dup(within(es, r)),
    decreases es.len(),
{
    if es.len() > 0 {
        let pre = es.drop_last();
        let x = es.last();
        lemma_within(pre, r);
        let w = within(es, r);
        let wp = within(pre, r);
        assert(w == if r.contains(x.source as nat) && r.contains(x.target as nat) {
            wp.push(x)
        } else {
            wp
        });
        assert forall|e: Edge| w.contains(e) implies es.contains(e) && r.contains(e.source as nat)
            && r.contains(e.target as nat) by {
            let k = choose|k: int| 0 <= k < w.len() && w[k] == e;
            if k < wp.len() {
                assert(wp[k] == e);
                assert(wp.contains(e));
                assert(pre.contains(e));
                let m = choose|m: int| 0 <= m < pre.len() && pre[m] == e;
                assert(es[m] == e);
            } else {
                assert(es[es.len() - 1] == e);
            }
        }
        assert forall|e: Edge|
            es.contains(e) && r.contains(e.source as nat) && r.contains(
                e.target as nat,
            ) implies w.contains(e) by {
            let m = choose|m: int| 0 <= m < es.len() && es[m] == e;
            if m < pre.len() {
                assert(pre[m] == e);
                assert(pre.contains(e));
                assert(wp.contains(e));
                let k = choose|k: int| 0 <= k < wp.len() && wp[k] == e;
                assert(w[k] == e);
            } else {
                assert(w[w.len() - 1] == e);
            }
        }
        if no_dup(es) {
            assert(no_dup(pre));
            assert forall|i: int, j: int| 0 <= i < j < w.len() implies w[i] != w[j] by {
                if j == wp.len() && r.contains(x.source as nat) && r.contains(x.target as nat) {
                    assert(wp[i] == w[i]);
                    assert(wp.contains(w[i]));
                    assert(pre.contains(w[i]));
                    let m = choose|m: int| 0 <= m < pre.len() && pre[m] == w[i];
                    assert(es[m] == w[i]);
                    assert(es[es.len() - 1] == x);
                } else {
                    assert(wp[i] == w[i] && wp[j] == w[j]);
                }
            }
        }
    }
}

/// What the root reaches within `k` edges stays reachable when only the
/// edges between nodes that it reaches at all are kept.
proof fn lemma_reach_within(es: Seq<Edge>, root: nat, k: nat)
    requires
        k <= usize::MAX,
    ensures
        layers(es, set![root], k, Walk::Forward).subset_of(
            layers(within(es, reachable_set(es, root)), set![root], k, Walk::Forward),
        ),
    decreases k,
{
    let r = reachable_set(es, root);
    let w = within(es, r);
    if k > 0 {
        let k1 = (k - 1) as nat;
        lemma_reach_within(es, root, k1);
        lemma_within(es, r);
        lemma_layers_grow(es, set![root], k1, usize::MAX as nat, Walk::Forward);
        lemma_layers_grow(es, set![root], k, usize::MAX as nat, Walk::Forward);
        let lo = layers(es, set![root], k1, Walk::Forward);
        let lw = layers(w, set![root], k1, Walk::Forward);
        assert forall|b: nat| step(es, lo, Walk::Forward).contains(b) implies step(
            w,
            lw,
            Walk::Forward,
        ).contains(b) by {
            if !lo.contains(b) {
                let i = choose|i: int|
                    0 <= i < es.len() && leads_to(es[i], Walk::Forward, lo, b);
                let e = es[i];
                assert(es.contains(e));
                assert(r.contains(e.source as nat));
                assert(step(es, lo, Walk::Forward).contains(b));
                assert(r.contains(e.target as nat));
                assert(w.contains(e));
                let j = choose|j: int| 0 <= j < w.len() && w[j] == e;
                assert(leads_to(w[j], Walk::Forward, lw, b));
            }
        }
    }
}

/// Laws of every filtered graph: the root is in it; every node in it is
/// reachable from the root over its edges; no edge occurs twice; without
/// `uses` every edge is an `Owns` edge; every node in it that was under the
/// root's containment tree, has a symbol and is not the root lies within the
/// depth limit of a focus node and is retained by the options.
pub proof fn lemma_filtered_laws(
    g: Graph,
    root: nat,
    o: Options,
    krate: u64,
    alts: Seq<PathView>,
    out: Graph,
)
    requires
        g.contains_node(root as int),
        filtered(g, root, o, krate, alts, out),
    ensures
        out.contains_node(root as int),
        forall|i: int| out.contains_node(i) ==> reachable_set(out.edges@, root).contains(i as nat),
        no_dup(out.edges@),
        !o.uses ==> forall|k: int| 0 <= k < out.edges@.len() ==> out.edges@[k].kind == EdgeKind::Owns,
        forall|i: int|
            out.contains_node(i) && i != root && owned_by_root(g, root).contains(i as nat)
                && out.nodes@[i].unwrap().symbol.is_some() ==> near_focus(g, o, alts).contains(
                i as nat,
            ) && retain_spec(o, krate, out.nodes@[i].unwrap().symbol.unwrap()),
{
    let d = drop_set(g, root, o, krate, alts);
    let moved = reattach(g.edges@, g.edges@, d, g.nodes@.len());
    let kept = if o.uses {
        moved
    } else {
        owns_only(moved)
    };
    let es = reduced_edges(g, d, o);
    let r = reachable_set(es, root);
    lemma_layers_grow(es, set![root], 0, usize::MAX as nat, Walk::Forward);
    assert(r.contains(root));
    assert(out.nodes@[root as int].is_some());
    lemma_reach_within(es, root, usize::MAX as nat);
    lemma_dedup_from(kept);
    lemma_within(es, r);
    if !o.uses {
        lemma_owns_only_owns(moved);
        assert forall|k: int| 0 <= k < out.edges@.len() implies out.edges@[k].kind
            == EdgeKind::Owns by {
            let e = out.edges@[k];
            assert(out.edges@.contains(e));
            assert(es.contains(e));
            assert(kept.contains(e));
        }
    }
    assert forall|i: int|
        out.contains_node(i) && i != root && owned_by_root(g, root).contains(i as nat)
            && out.nodes@[i].unwrap().symbol.is_some() implies near_focus(g, o, alts).contains(
        i as nat,
    ) && retain_spec(o, krate, out.nodes@[i].unwrap().symbol.unwrap()) by {
        assert(!d.contains(i as nat));
    }
}

/// Filtering is deterministic: two graphs that both are the filtered form of
/// one input, under one set of options, have the same nodes and edges.
pub proof fn lemma_filtered_unique(
    g: Graph,
    root: nat,
    o: Options,
    krate: u64,
    alts: Seq<PathView>,
    a: Graph,
    b: Graph,
)
    requires
        filtered(g, root, o, krate, alts, a),
        filtered(g, root, o, krate, alts, b),
    ensures
        a.edges@ == b.edges@,
        a.nodes@.len() == b.nodes@.len(),
        forall|i: int|
            0 <= i < a.nodes@.len() ==> (#[trigger] a.nodes@[i]).is_some() == b.nodes@[i].is_some()
                && (a.nodes@[i].is_some() ==> a.nodes@[i].unwrap().path@
                == b.nodes@[i].unwrap().path@ && a.nodes@[i].unwrap().symbol
                == b.nodes@[i].unwrap().symbol),
{
}

proof fn lemma_first_owner_present(g: Graph, n: nat, i: int)
    requires
        g.wf(),
    ensures
        first_owner(g.edges@, n, i) matches Some(p) ==> is_present(g.nodes@, p as int),
    decreases g.edges@.len() - i,
{
    if 0 <= i < g.edges@.len() {
        lemma_first_owner_present(g, n, i + 1);
    }
}

proof fn lemma_survivor_kept(g: Graph, d: Set<nat>, n: nat, fuel: nat)
    requires
        g.wf(),
        is_present(g.nodes@, n as int),
    ensures
        survivor(g.edges@, d, n, fuel) matches Some(s) ==> is_present(g.nodes@, s as int)
            && !d.contains(s),
    decreases fuel,
{
    if d.contains(n) && fuel > 0 {
        lemma_first_owner_present(g, n, 0);
        if let Some(p) = first_owner(g.edges@, n, 0) {
            lemma_survivor_kept(g, d, p, (fuel - 1) as nat);
        }
    }
}

/// Both ends of a reattached edge are present and kept.
proof fn lemma_reattach_kept(g: Graph, es: Seq<Edge>, d: Set<nat>)
    requires
        g.wf(),
        g.nodes@.len() <= usize::MAX,
        edges_wf(g.nodes@, es),
    ensures
        forall|e: Edge|
            reattach(es, g.edges@, d, g.nodes@.len()).contains(e) ==> is_present(
                g.nodes@,
                e.source as int,
            ) && is_present(g.nodes@, e.target as int) && !d.contains(e.source as nat)
                && !d.contains(e.target as nat),
    decreases es.len(),
{
    if es.len() > 0 {
        let pre = es.drop_last();
        let x = es.last();
        assert(edges_wf(g.nodes@, pre)) by {
            assert forall|i: int| 0 <= i < pre.len() implies is_present(
                g.nodes@,
                (#[trigger] pre[i]).source as int,
            ) && is_present(g.nodes@, pre[i].target as int) by {
                assert(pre[i] == es[i]);
            }
        }
        assert(es[es.len() - 1] == x);
        lemma_reattach_kept(g, pre, d);
        lemma_survivor_kept(g, d, x.source as nat, g.nodes@.len());
        let rp = reattach(pre, g.edges@, d, g.nodes@.len());
        let ra = reattach(es, g.edges@, d, g.nodes@.len());
        assert(ra == if d.contains(x.target as nat) {
            rp
        } else {
            match survivor(g.edges@, d, x.source as nat, g.nodes@.len()) {
                Some(s) => rp.push(Edge { source: s as usize, target: x.target, kind: x.kind }),
                None => rp,
            }
        });
        assert forall|e: Edge| ra.contains(e) implies is_present(g.nodes@, e.source as int)
            && is_present(g.nodes@, e.target as int) && !d.contains(e.source as nat) && !d.contains(
            e.target as nat,
        ) by {
            let k = choose|k: int| 0 <= k < ra.len() && ra[k] == e;
            if k < rp.len() {
                assert(rp[k] == e);
                assert(rp.contains(e));
            } else {
                let sv = survivor(g.edges@, d, x.source as nat, g.nodes@.len()).unwrap();
                assert(e == Edge { source: sv as usize, target: x.target, kind: x.kind });
                assert(sv < g.nodes@.len());
            }
        }
    }
}

proof fn lemma_owns_only_from(es: Seq<Edge>)
    ensures
        forall|e: Edge| owns_only(es).contains(e) ==> es.contains(e),
    decreases es.len(),
{
    if es.len() > 0 {
        let pre = es.drop_last();
        lemma_owns_only_from(pre);
        let o = owns_only(es);
        assert(o == if es.last().kind == EdgeKind::Owns {
            owns_only(pre).push(es.last())
        } else {
            owns_only(pre)
        });
        assert forall|e: Edge| o.contains(e) implies es.contains(e) by {
            let k = choose|k: int| 0 <= k < o.len() && o[k] == e;
            if k < owns_only(pre).len() {
                assert(owns_only(pre)[k] == e);
                assert(owns_only(pre).contains(e));
                assert(pre.contains(e));
                let m = choose|m: int| 0 <= m < pre.len() && pre[m] == e;
                assert(es[m] == e);
            } else {
                assert(es[es.len() - 1] == e);
            }
        }
    }
}

/// The filtered graph is well formed: each edge joins two nodes in it.
pub proof fn lemma_filtered_wf(
    g: Graph,
    root: nat,
    o: Options,
    krate: u64,
    alts: Seq<PathView>,
    out: Graph,
)
    requires
        g.wf(),
        g.nodes@.len() <= usize::MAX,
        filtered(g, root, o, krate, alts, out),
    ensures
        out.wf(),
{
    let d = drop_set(g, root, o, krate, alts);
    let moved = reattach(g.edges@, g.edges@, d, g.nodes@.len());
    let kept = if o.uses {
        moved
    } else {
        owns_only(moved)
    };
    let es = reduced_edges(g, d, o);
    let r = reachable_set(es, root);
    lemma_reattach_kept(g, g.edges@, d);
    lemma_owns_only_from(moved);
    lemma_dedup_from(kept);
    lemma_within(es, r);
    assert forall|k: int| 0 <= k < out.edges@.len() implies is_present(
        out.nodes@,
        (#[trigger] out.edges@[k]).source as int,
    ) && is_present(out.nodes@, out.edges@[k].target as int) by {
        let e = out.edges@[k];
        assert(out.edges@.contains(e));
        assert(es.contains(e));
        assert(kept.contains(e));
        assert(moved.contains(e));
    }
}

} // verus!
