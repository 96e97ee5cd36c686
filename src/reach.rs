use vstd::prelude::*;

use crate::graph::{Edge, EdgeKind};

verus! {

/// Which edges a walk follows, and in which direction.
#[derive(Clone, Copy, PartialEq, Eq, Debug, Structural)]
pub enum Walk {
    /// Every edge, both ways.
    Undirected,
    /// Every edge, from source to target.
    Forward,
    /// `Owns` edges only, from source to target.
    OwnsForward,
}

/// `e` leads from a node of `s` to `b` on `walk`.
pub open spec fn leads_to(e: Edge, walk: Walk, s: Set<nat>, b: nat) -> bool {
    match walk {
        Walk::Undirected => (s.contains(e.source as nat) && e.target == b) || (s.contains(
            e.target as nat,
        ) && e.source == b),
        Walk::Forward => s.contains(e.source as nat) && e.target == b,
        Walk::OwnsForward => e.kind == EdgeKind::Owns && s.contains(e.source as nat) && e.target
            == b,
    }
}

/// `s` together with every node one edge away from it.
pub open spec fn step(edges: Seq<Edge>, s: Set<nat>, walk: Walk) -> Set<nat> {
    s.union(Set::new(|b: nat| exists|i: int| 0 <= i < edges.len() && leads_to(edges[i], walk, s, b)))
}

/// The nodes within `k` edges of `start`.
pub open spec fn layers(edges: Seq<Edge>, start: Set<nat>, k: nat, walk: Walk) -> Set<nat>
    decreases k,
{
    if k == 0 {
        start
    } else {
        step(edges, layers(edges, start, (k - 1) as nat, walk), walk)
    }
}

/// The set of indices whose flag is set.
pub open spec fn flagged(v: Seq<bool>) -> Set<nat> {
    Set::new(|i: nat| i < v.len() && v[i as int])
}

pub open spec fn endpoints_below(edges: Seq<Edge>, n: nat) -> bool {
    forall|i: int|
        0 <= i < edges.len() ==> (#[trigger] edges[i]).source < n && edges[i].target < n
}

/// A layer never loses a node.
pub proof fn lemma_layers_grow(edges: Seq<Edge>, start: Set<nat>, k: nat, j: nat, walk: Walk)
    requires
        k <= j,
    ensures
        layers(edges, start, k, walk).subset_of(layers(edges, start, j, walk)),
    decreases j,
{
    if k < j {
        lemma_layers_grow(edges, start, k, (j - 1) as nat, walk);
    }
}

/// Once a step adds nothing, no later step does.
pub proof fn lemma_layers_stable(edges: Seq<Edge>, start: Set<nat>, k: nat, j: nat, walk: Walk)
    requires
        k <= j,
        step(edges, layers(edges, start, k, walk), walk) == layers(edges, start, k, walk),
    ensures
        layers(edges, start, j, walk) == layers(edges, start, k, walk),
    decreases j,
{
    if k < j {
        lemma_layers_stable(edges, start, k, (j - 1) as nat, walk);
    }
}

/// One step of a walk, on flags: the new flags and whether any was added.
fn step_flags(edges: &Vec<Edge>, cur: &Vec<bool>, walk: Walk) -> (r: (Vec<bool>, bool))
    requires
        endpoints_below(edges@, cur@.len()),
    ensures
        r.0@.len() == cur@.len(),
        flagged(r.0@) == step(edges@, flagged(cur@), walk),
        r.1 == (flagged(r.0@) != flagged(cur@)),
{
    let n = cur.len();
    let ghost s = flagged(cur@);
    let mut next: Vec<bool> = Vec::new();
    let mut x: usize = 0;
    while x < n
        invariant
            n == cur@.len(),
            x <= n,
            next@ == cur@.subrange(0, x as int),
        decreases n - x,
    {
        next.push(cur[x]);
        x = x + 1;
        assert(next@ =~= cur@.subrange(0, x as int));
    }
    assert(next@ =~= cur@);
    let mut changed = false;
    let mut i: usize = 0;
    while i < edges.len()
        invariant
            n == cur@.len(),
            s == flagged(cur@),
            endpoints_below(edges@, n as nat),
            i <= edges@.len(),
            next@.len() == n,
            forall|b: int|
                0 <= b < n ==> (#[trigger] next@[b] == (cur@[b] || exists|j: int|
                    0 <= j < i && leads_to(edges@[j], walk, s, b as nat))),
            changed == (exists|b: int| 0 <= b < n && next@[b] && !cur@[b]),
        decreases edges@.len() - i,
    {
        let e = edges[i];
        let forward = match walk {
            Walk::OwnsForward => e.kind == EdgeKind::Owns,
            _ => true,
        };
        let ghost old_next = next@;
        if forward && cur[e.source] && !next[e.target] {
            next.set(e.target, true);
            changed = true;
        }
        let ghost mid = next@;
        if walk == Walk::Undirected && cur[e.target] && !next[e.source] {
            next.set(e.source, true);
            changed = true;
        }
        assert forall|b: int| 0 <= b < n implies (#[trigger] next@[b] == (cur@[b] || exists|j: int|
            0 <= j < i + 1 && leads_to(edges@[j], walk, s, b as nat))) by {
            if leads_to(edges@[i as int], walk, s, b as nat) {
                assert(next@[b]);
            }
            if next@[b] && !cur@[b] && !old_next[b] {
                assert(leads_to(edges@[i as int], walk, s, b as nat));
            }
            if exists|j: int| 0 <= j < i && leads_to(edges@[j], walk, s, b as nat) {
                assert(old_next[b]);
            }
        }
        if changed {
            assert(exists|b: int| 0 <= b < n && next@[b] && !cur@[b]) by {
                if !(exists|b: int| 0 <= b < n && old_next[b] && !cur@[b]) {
                    if mid != old_next {
                        assert(next@[e.target as int] && !cur@[e.target as int]);
                    } else {
                        assert(next@[e.source as int] && !cur@[e.source as int]);
                    }
                } else {
                    let b = choose|b: int| 0 <= b < n && old_next[b] && !cur@[b];
                    assert(next@[b]);
                }
            }
        }
        i = i + 1;
    }
    assert(flagged(next@) =~= step(edges@, s, walk)) by {
        assert forall|b: nat| step(edges@, s, walk).contains(b) implies flagged(next@).contains(
            b,
        ) by {
            if !s.contains(b) {
                let j = choose|j: int|
                    0 <= j < edges@.len() && leads_to(edges@[j], walk, s, b);
                assert(b < n);
                assert(next@[b as int]);
            }
        }
    }
    proof {
        if changed {
            let b = choose|b: int| 0 <= b < n && next@[b] && !cur@[b];
            assert(flagged(next@).contains(b as nat) && !flagged(cur@).contains(b as nat));
        } else {
            assert(flagged(next@) =~= flagged(cur@));
        }
    }
    (next, changed)
}

/// The nodes within `depth` edges of the flagged ones, as flags.
pub fn reach_within(edges: &Vec<Edge>, start: Vec<bool>, depth: usize, walk: Walk) -> (r: Vec<
    bool,
>)
    requires
        endpoints_below(edges@, start@.len()),
    ensures
        r@.len() == start@.len(),
        flagged(r@) == layers(edges@, flagged(start@), depth as nat, walk),
{
    let ghost s0 = flagged(start@);
    let mut cur = start;
    let mut k: usize = 0;
    while k < depth
        invariant
            k <= depth,
            s0 == flagged(start@),
            cur@.len() == start@.len(),
            endpoints_below(edges@, cur@.len()),
            flagged(cur@) == layers(edges@, s0, k as nat, walk),
        decreases depth - k,
    {
        let (next, changed) = step_flags(edges, &cur, walk);
        assert(layers(edges@, s0, (k + 1) as nat, walk) == step(
            edges@,
            layers(edges@, s0, k as nat, walk),
            walk,
        ));
        if !changed {
            proof {
                assert(flagged(next@) == flagged(cur@));
                assert(step(edges@, layers(edges@, s0, k as nat, walk), walk) == layers(
                    edges@,
                    s0,
                    k as nat,
                    walk,
                ));
                lemma_layers_stable(edges@, s0, k as nat, depth as nat, walk);
            }
            return cur;
        }
        cur = next;
        k = k + 1;
    }
    cur
}

} // verus!
