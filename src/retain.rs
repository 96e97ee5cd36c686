use vstd::prelude::*;

use crate::graph::{Symbol, SymbolKind};

verus! {

/// What a view of the graph keeps.
#[derive(Clone, PartialEq, Eq, Debug)]
pub struct Options {
    /// Focus specification; the crate's name when absent.
    pub focus_on: Option<String>,
    /// Largest number of undirected hops from a focus node.
    pub max_depth: Option<usize>,
    /// Asks renderers for acyclic output; filtering does not read it.
    pub acyclic: bool,
    /// Keep types (algebraic and builtin).
    pub types: bool,
    /// Keep traits.
    pub traits: bool,
    /// Keep functions.
    pub fns: bool,
    /// Keep functions marked as tests (when functions are kept).
    pub tests: bool,
    /// Keep modules other than crate roots.
    pub modules: bool,
    /// Keep `Uses` edges.
    pub uses: bool,
    /// Keep items defined outside the crate under analysis.
    pub externs: bool,
}

/// The item is defined outside crate `krate`, or by no crate at all.
pub open spec fn is_extern_spec(krate: u64, sym: Symbol) -> bool {
    sym.krate != Some(krate)
}

/// The policy of each kind of item, externs aside.
pub open spec fn kind_retained(o: Options, sym: Symbol) -> bool {
    match sym.kind {
        SymbolKind::Module => o.modules || sym.is_crate_root,
        SymbolKind::Function => o.fns && (o.tests || !sym.is_test),
        SymbolKind::Adt => o.types,
        SymbolKind::BuiltinType => o.types,
        SymbolKind::Trait => o.traits,
        _ => false,
    }
}

/// Whether a node with symbol `sym` is kept under `o` when analysing `krate`.
pub open spec fn retain_spec(o: Options, krate: u64, sym: Symbol) -> bool {
    !(!o.externs && is_extern_spec(krate, sym)) && kind_retained(o, sym)
}

/// An externally defined item is dropped when externs are off, whatever its kind.
pub proof fn lemma_extern_dominates(o: Options, krate: u64, sym: Symbol)
    requires
        !o.externs,
        is_extern_spec(krate, sym),
    ensures
        !retain_spec(o, krate, sym),
{
}

/// A test function is dropped when tests are off, and kept when functions
/// and tests are both on (externs aside).
pub proof fn lemma_test_exclusion(o: Options, krate: u64, sym: Symbol)
    requires
        sym.kind == SymbolKind::Function,
        sym.is_test,
    ensures
        !o.tests ==> !retain_spec(o, krate, sym),
        o.fns && o.tests && (o.externs || !is_extern_spec(krate, sym)) ==> retain_spec(
            o,
            krate,
            sym,
        ),
{
}

/// The `fns` flag decides functions only: with it off no function is kept,
/// and the verdict on any other kind is the same either way.
pub proof fn lemma_kind_flags_independent(o: Options, krate: u64, sym: Symbol)
    ensures
        !o.fns && sym.kind == SymbolKind::Function ==> !retain_spec(o, krate, sym),
        sym.kind != SymbolKind::Function ==> retain_spec(o, krate, sym) == retain_spec(
            Options { fns: !o.fns, ..o },
            krate,
            sym,
        ),
{
}

} // verus!
