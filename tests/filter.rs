use cargo_modules::filter::{Crate, Filter, FilterError};
use cargo_modules::graph::{Edge, EdgeKind, Graph, Node, Symbol, SymbolKind};
use cargo_modules::pattern::PathPattern;
use cargo_modules::retain::Options;

const KRATE: u64 = 1;

fn options() -> Options {
    Options {
        focus_on: None,
        max_depth: None,
        acyclic: false,
        types: true,
        traits: true,
        fns: true,
        tests: true,
        modules: true,
        uses: true,
        externs: false,
    }
}

fn sym(kind: SymbolKind) -> Option<Symbol> {
    Some(Symbol { kind, is_crate_root: false, is_test: false, krate: Some(KRATE) })
}

fn root_sym() -> Option<Symbol> {
    Some(Symbol {
        kind: SymbolKind::Module,
        is_crate_root: true,
        is_test: false,
        krate: Some(KRATE),
    })
}

fn node(path: &str, symbol: Option<Symbol>) -> Option<Node> {
    Some(Node { path: path.split("::").map(|s| s.to_string()).collect(), symbol })
}

fn edge(source: usize, target: usize, kind: EdgeKind) -> Edge {
    Edge { source, target, kind }
}

fn run(graph: &Graph, options: Options) -> Result<Graph, FilterError> {
    let krate = Crate { id: KRATE, name: "crate".to_string() };
    Filter::new(options, krate).filter(graph, 0)
}

fn present(g: &Graph) -> Vec<usize> {
    (0..g.nodes.len()).filter(|i| g.nodes[*i].is_some()).collect()
}

fn triples(g: &Graph) -> Vec<(usize, usize, EdgeKind)> {
    g.edges.iter().map(|e| (e.source, e.target, e.kind)).collect()
}

/// crate -Owns-> crate::m -Owns-> crate::m::f -Uses-> crate::T, crate -Owns-> crate::T
fn example_graph() -> Graph {
    Graph {
        nodes: vec![
            node("crate", root_sym()),
            node("crate::m", sym(SymbolKind::Module)),
            node("crate::m::f", sym(SymbolKind::Function)),
            node("crate::T", sym(SymbolKind::Adt)),
        ],
        edges: vec![
            edge(0, 1, EdgeKind::Owns),
            edge(1, 2, EdgeKind::Owns),
            edge(2, 3, EdgeKind::Uses),
            edge(0, 3, EdgeKind::Owns),
        ],
    }
}

#[test]
fn example_scenario_reattaches_function_uses() {
    let mut o = options();
    o.fns = false;
    let out = run(&example_graph(), o).unwrap();
    assert_eq!(present(&out), vec![0, 1, 3]);
    assert_eq!(
        triples(&out),
        vec![(0, 1, EdgeKind::Owns), (1, 3, EdgeKind::Uses), (0, 3, EdgeKind::Owns)]
    );
    assert_eq!(out.nodes[3].as_ref().unwrap().path, vec!["crate".to_string(), "T".to_string()]);
}

#[test]
fn nothing_dropped_with_everything_on() {
    let out = run(&example_graph(), options()).unwrap();
    assert_eq!(present(&out), vec![0, 1, 2, 3]);
    assert_eq!(triples(&out), triples(&example_graph()));
}

#[test]
fn reattachment_preserves_dependency() {
    // A (root) -Owns-> B (function, dropped) -Uses-> C (type), A -Owns-> C
    let g = Graph {
        nodes: vec![
            node("crate", root_sym()),
            node("crate::b", sym(SymbolKind::Function)),
            node("crate::C", sym(SymbolKind::Adt)),
        ],
        edges: vec![
            edge(0, 1, EdgeKind::Owns),
            edge(1, 2, EdgeKind::Uses),
            edge(0, 2, EdgeKind::Owns),
        ],
    };
    let mut o = options();
    o.fns = false;
    let out = run(&g, o).unwrap();
    assert!(out.nodes[1].is_none());
    assert!(triples(&out).contains(&(0, 2, EdgeKind::Uses)));
    assert!(out.edges.iter().all(|e| e.source != 1 && e.target != 1));
}

#[test]
fn uses_edges_stripped_when_uses_off() {
    let mut o = options();
    o.fns = false;
    o.uses = false;
    let out = run(&example_graph(), o).unwrap();
    assert_eq!(triples(&out), vec![(0, 1, EdgeKind::Owns), (0, 3, EdgeKind::Owns)]);
    assert!(out.edges.iter().all(|e| e.kind == EdgeKind::Owns));
}

#[test]
fn duplicate_edges_collapse_after_reattachment() {
    // root owns two functions that both use T; root owns T too.
    let g = Graph {
        nodes: vec![
            node("crate", root_sym()),
            node("crate::f", sym(SymbolKind::Function)),
            node("crate::g", sym(SymbolKind::Function)),
            node("crate::T", sym(SymbolKind::Adt)),
        ],
        edges: vec![
            edge(0, 1, EdgeKind::Owns),
            edge(0, 2, EdgeKind::Owns),
            edge(0, 3, EdgeKind::Owns),
            edge(1, 3, EdgeKind::Uses),
            edge(2, 3, EdgeKind::Uses),
        ],
    };
    let mut o = options();
    o.fns = false;
    let out = run(&g, o).unwrap();
    assert_eq!(triples(&out), vec![(0, 3, EdgeKind::Owns), (0, 3, EdgeKind::Uses)]);
}

#[test]
fn focus_matching_no_node_is_an_error() {
    let mut o = options();
    o.focus_on = Some("crate::nope".to_string());
    assert_eq!(run(&example_graph(), o).err(), Some(FilterError::FocusNotFound));
}

#[test]
fn malformed_focus_is_a_syntax_error() {
    for text in ["crate::{", "crate::::m", "", "crate::{m,}", "crate m"] {
        let mut o = options();
        o.focus_on = Some(text.to_string());
        assert_eq!(run(&example_graph(), o).err(), Some(FilterError::PatternSyntax), "{}", text);
    }
}

#[test]
fn group_focus_with_zero_depth() {
    let mut o = options();
    o.focus_on = Some("crate::{m, T}".to_string());
    o.max_depth = Some(0);
    let out = run(&example_graph(), o).unwrap();
    assert_eq!(present(&out), vec![0, 1, 3]);
    assert_eq!(
        triples(&out),
        vec![(0, 1, EdgeKind::Owns), (1, 3, EdgeKind::Uses), (0, 3, EdgeKind::Owns)]
    );
}

#[test]
fn depth_bound_respected() {
    // crate -> a -> b -> c, all modules
    let g = Graph {
        nodes: vec![
            node("crate", root_sym()),
            node("crate::a", sym(SymbolKind::Module)),
            node("crate::a::b", sym(SymbolKind::Module)),
            node("crate::a::b::c", sym(SymbolKind::Module)),
        ],
        edges: vec![
            edge(0, 1, EdgeKind::Owns),
            edge(1, 2, EdgeKind::Owns),
            edge(2, 3, EdgeKind::Owns),
        ],
    };
    let mut o = options();
    o.focus_on = Some("crate::a".to_string());
    o.max_depth = Some(1);
    let out = run(&g, o.clone()).unwrap();
    assert_eq!(present(&out), vec![0, 1, 2]);
    o.max_depth = Some(2);
    let out = run(&g, o).unwrap();
    assert_eq!(present(&out), vec![0, 1, 2, 3]);
}

fn test_fn_graph() -> Graph {
    Graph {
        nodes: vec![
            node("crate", root_sym()),
            node(
                "crate::it_works",
                Some(Symbol {
                    kind: SymbolKind::Function,
                    is_crate_root: false,
                    is_test: true,
                    krate: Some(KRATE),
                }),
            ),
        ],
        edges: vec![edge(0, 1, EdgeKind::Owns)],
    }
}

#[test]
fn test_functions_follow_tests_flag() {
    let mut o = options();
    o.tests = false;
    assert_eq!(present(&run(&test_fn_graph(), o).unwrap()), vec![0]);
    assert_eq!(present(&run(&test_fn_graph(), options()).unwrap()), vec![0, 1]);
}

fn extern_graph() -> Graph {
    Graph {
        nodes: vec![
            node("crate", root_sym()),
            node(
                "other::Ty",
                Some(Symbol {
                    kind: SymbolKind::Adt,
                    is_crate_root: false,
                    is_test: false,
                    krate: Some(2),
                }),
            ),
            node(
                "u8",
                Some(Symbol {
                    kind: SymbolKind::BuiltinType,
                    is_crate_root: false,
                    is_test: false,
                    krate: None,
                }),
            ),
        ],
        edges: vec![edge(0, 1, EdgeKind::Owns), edge(0, 2, EdgeKind::Owns)],
    }
}

#[test]
fn extern_items_dropped_when_externs_off() {
    assert_eq!(present(&run(&extern_graph(), options()).unwrap()), vec![0]);
    let mut o = options();
    o.externs = true;
    assert_eq!(present(&run(&extern_graph(), o.clone()).unwrap()), vec![0, 1, 2]);
    o.types = false;
    assert_eq!(present(&run(&extern_graph(), o).unwrap()), vec![0]);
}

fn mixed_graph() -> Graph {
    Graph {
        nodes: vec![
            node("crate", root_sym()),
            node("crate::f", sym(SymbolKind::Function)),
            node("crate::T", sym(SymbolKind::Adt)),
            node("crate::Tr", sym(SymbolKind::Trait)),
            node("crate::C", sym(SymbolKind::Const)),
            node("crate::A", sym(SymbolKind::TypeAlias)),
            node("crate::m", sym(SymbolKind::Module)),
        ],
        edges: (1..7).map(|i| edge(0, i, EdgeKind::Owns)).collect(),
    }
}

#[test]
fn kind_filters_are_independent() {
    let mut o = options();
    o.fns = false;
    assert_eq!(present(&run(&mixed_graph(), o).unwrap()), vec![0, 2, 3, 6]);
    let mut o = options();
    o.types = false;
    assert_eq!(present(&run(&mixed_graph(), o).unwrap()), vec![0, 1, 3, 6]);
    let mut o = options();
    o.traits = false;
    assert_eq!(present(&run(&mixed_graph(), o).unwrap()), vec![0, 1, 2, 6]);
    let mut o = options();
    o.modules = false;
    assert_eq!(present(&run(&mixed_graph(), o).unwrap()), vec![0, 1, 2, 3]);
}

#[test]
fn root_is_kept_even_when_its_kind_is_filtered() {
    let g = Graph {
        nodes: vec![node("crate", sym(SymbolKind::Module)), node("crate::m", sym(SymbolKind::Module))],
        edges: vec![edge(0, 1, EdgeKind::Owns)],
    };
    let mut o = options();
    o.modules = false;
    assert_eq!(present(&run(&g, o).unwrap()), vec![0]);
}

#[test]
fn synthetic_nodes_are_not_dropped_and_unreachable_nodes_are() {
    let g = Graph {
        nodes: vec![
            node("crate", root_sym()),
            node("crate::x", None),
            node("crate::lonely", sym(SymbolKind::Module)),
            None,
        ],
        edges: vec![edge(0, 1, EdgeKind::Owns)],
    };
    let mut o = options();
    o.modules = false;
    o.fns = false;
    let out = run(&g, o).unwrap();
    assert_eq!(present(&out), vec![0, 1]);
    assert_eq!(out.nodes.len(), 4);
}

#[test]
fn dropped_chain_reattaches_to_nearest_survivor() {
    // crate -> m (module, dropped) -> f (fn, dropped) -Uses-> T
    let g = Graph {
        nodes: vec![
            node("crate", root_sym()),
            node("crate::m", sym(SymbolKind::Module)),
            node("crate::m::f", sym(SymbolKind::Function)),
            node("crate::T", sym(SymbolKind::Adt)),
        ],
        edges: vec![
            edge(0, 1, EdgeKind::Owns),
            edge(1, 2, EdgeKind::Owns),
            edge(2, 3, EdgeKind::Uses),
            edge(0, 3, EdgeKind::Owns),
        ],
    };
    let mut o = options();
    o.modules = false;
    o.fns = false;
    let out = run(&g, o).unwrap();
    assert_eq!(present(&out), vec![0, 3]);
    assert_eq!(triples(&out), vec![(0, 3, EdgeKind::Uses), (0, 3, EdgeKind::Owns)]);
}

#[test]
fn filtering_twice_gives_the_same_graph() {
    let mut o = options();
    o.fns = false;
    let a = run(&example_graph(), o.clone()).unwrap();
    let b = run(&example_graph(), o).unwrap();
    assert_eq!(present(&a), present(&b));
    assert_eq!(triples(&a), triples(&b));
    for i in present(&a) {
        assert_eq!(a.nodes[i].as_ref().unwrap().path, b.nodes[i].as_ref().unwrap().path);
    }
}

#[test]
fn every_output_node_is_reachable_from_root() {
    let mut o = options();
    o.fns = false;
    o.types = false;
    let out = run(&example_graph(), o).unwrap();
    let mut seen = vec![false; out.nodes.len()];
    seen[0] = true;
    let mut changed = true;
    while changed {
        changed = false;
        for e in &out.edges {
            if seen[e.source] && !seen[e.target] {
                seen[e.target] = true;
                changed = true;
            }
        }
    }
    for i in present(&out) {
        assert!(seen[i]);
    }
    assert_eq!(present(&out), vec![0, 1]);
}

fn path(p: &str) -> Vec<String> {
    p.split("::").map(|s| s.to_string()).collect()
}

#[test]
fn pattern_groups_match_exact_paths() {
    let p = PathPattern::parse(&"crate :: a::{b, c::{d, e}}".to_string()).unwrap();
    assert!(p.matches(&path("crate::a::b")));
    assert!(p.matches(&path("crate::a::c::e")));
    assert!(!p.matches(&path("crate::a::c")));
    assert!(!p.matches(&path("crate::a")));
    assert!(!p.matches(&path("crate::a::b::x")));
    assert!(!p.matches(&path("crate::a::f")));
}

#[test]
fn pattern_rejects_malformed_text() {
    assert!(PathPattern::parse(&"crate::{a".to_string()).is_none());
    assert!(PathPattern::parse(&"::a".to_string()).is_none());
    assert!(PathPattern::parse(&"a::".to_string()).is_none());
    assert!(PathPattern::parse(&"a::{}".to_string()).is_none());
    assert!(PathPattern::parse(&"crate".to_string()).is_some());
}

#[test]
fn pattern_self_and_glob() {
    let p = PathPattern::parse(&"crate::a::{self, b::*}".to_string()).unwrap();
    assert!(p.matches(&path("crate::a")));
    assert!(p.matches(&path("crate::a::b::x")));
    assert!(!p.matches(&path("crate::a::b")));
    assert!(!p.matches(&path("crate::a::b::x::y")));
    assert!(!p.matches(&path("crate::a::self")));
    assert!(PathPattern::parse(&"crate::*::a".to_string()).is_none());
}

#[test]
fn glob_focus_selects_children() {
    let mut o = options();
    o.focus_on = Some("crate::m::*".to_string());
    o.max_depth = Some(0);
    let out = run(&example_graph(), o).unwrap();
    // f is the only focus node; m and T are out of depth and dropped,
    // so the edge that owned f now starts at the root.
    assert_eq!(present(&out), vec![0, 2]);
    assert_eq!(triples(&out), vec![(0, 2, EdgeKind::Owns)]);
}
