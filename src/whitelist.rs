//! The functions reachable from the start function through direct calls: they perform the
//! legitimate initial writes and are left out of write protection.
use vstd::prelude::*;
use crate::address_set::{AddressSet, closed_under, has_edge, in_closure};
use crate::wasm::{Instr, Module, MAX_FUNCTIONS};

verus! {

/// Function `f` of the module calls function `g` directly.
pub open spec fn calls(m: Module, f: u32, g: u32) -> bool {
    exists|k: int| 0 <= f < m.functions@.len() && 0 <= k < m.functions@[f as int].body().len()
        && #[trigger] m.functions@[f as int].body()[k] == Instr::Call(g)
}

/// No direct call leads from a member of `s` to a non-member.
pub open spec fn call_closed(m: Module, s: Set<u32>) -> bool {
    forall|f: u32, g: u32| #[trigger] calls(m, f, g) && s.contains(f) ==> s.contains(g)
}

/// The module has a start function and `f` is reachable from it through direct calls
/// (the start function itself included).
pub open spec fn reachable_from_start(m: Module, f: u32) -> bool {
    match m.start {
        Some(s) => forall|l: Set<u32>| l.contains(s) && call_closed(m, l) ==> #[trigger] l.contains(f),
        None => false,
    }
}

spec fn calls_in_prefix(m: Module, f: int, i: int, g: u32) -> bool {
    exists|k: int| 0 <= k < i && #[trigger] m.functions@[f].body()[k] == Instr::Call(g)
}

/// Every direct call of the module, as an edge from caller to callee.
pub fn call_edges(m: &Module) -> (r: Vec<(u32, u32)>)
    requires
        m.functions@.len() <= MAX_FUNCTIONS,
    ensures
        forall|f: u32, g: u32| #[trigger] has_edge(r@, f, g) <==> calls(*m, f, g),
{
    let mut edges: Vec<(u32, u32)> = Vec::new();
    let mut f: usize = 0;
    while f < m.functions.len()
        invariant
            f <= m.functions@.len() <= MAX_FUNCTIONS,
            forall|x: u32, y: u32| #[trigger] has_edge(edges@, x, y) <==> (x < f && calls(*m, x, y)),
        decreases m.functions.len() - f,
    {
        if let Some(body) = &m.functions[f].code {
            let mut i: usize = 0;
            while i < body.len()
                invariant
                    i <= body.len(),
                    f < m.functions@.len() <= MAX_FUNCTIONS,
                    body@ == m.functions@[f as int].body(),
                    forall|x: u32, y: u32| #[trigger] has_edge(edges@, x, y) <==>
                        ((x < f && calls(*m, x, y)) || (x == f && calls_in_prefix(*m, f as int, i as int, y))),
                decreases body.len() - i,
            {
                let ghost before = edges@;
                if let Instr::Call(g) = body[i] {
                    edges.push((f as u32, g));
                }
                proof {
                    assert forall|x: u32, y: u32| #[trigger] has_edge(edges@, x, y) <==>
                        ((x < f && calls(*m, x, y)) || (x == f && calls_in_prefix(*m, f as int, i + 1, y))) by {
                        if has_edge(edges@, x, y) && !has_edge(before, x, y) {
                            let j = choose|j: int| 0 <= j < edges@.len() && #[trigger] edges@[j] == (x, y);
                            if j < before.len() {
                                assert(before[j] == (x, y));
                            } else {
                                assert(m.functions@[f as int].body()[i as int] == Instr::Call(y));
                            }
                        }
                        if has_edge(before, x, y) {
                            let j = choose|j: int| 0 <= j < before.len() && #[trigger] before[j] == (x, y);
                            assert(edges@[j] == (x, y));
                        }
                        if x == f && calls_in_prefix(*m, f as int, i + 1, y) && !calls_in_prefix(*m, f as int, i as int, y) {
                            let k = choose|k: int| 0 <= k < i + 1 && #[trigger] m.functions@[f as int].body()[k] == Instr::Call(y);
                            assert(k == i);
                            assert(edges@[before.len() as int] == (x, y));
                        }
                    }
                }
                i = i + 1;
            }
            proof {
                assert forall|x: u32, y: u32| #[trigger] has_edge(edges@, x, y) <==> (x < f + 1 && calls(*m, x, y)) by {
                    if x == f && calls(*m, x, y) {
                        let k = choose|k: int| 0 <= x < m.functions@.len() && 0 <= k < m.functions@[x as int].body().len()
                            && #[trigger] m.functions@[x as int].body()[k] == Instr::Call(y);
                        assert(calls_in_prefix(*m, f as int, i as int, y));
                    }
                    if x == f && calls_in_prefix(*m, f as int, i as int, y) {
                        let k = choose|k: int| 0 <= k < i && #[trigger] m.functions@[f as int].body()[k] == Instr::Call(y);
                        assert(calls(*m, x, y));
                    }
                }
            }
        } else {
            proof {
                assert forall|x: u32, y: u32| #[trigger] has_edge(edges@, x, y) <==> (x < f + 1 && calls(*m, x, y)) by {
                    if x == f && calls(*m, x, y) {
                        let k = choose|k: int| 0 <= x < m.functions@.len() && 0 <= k < m.functions@[x as int].body().len()
                            && #[trigger] m.functions@[x as int].body()[k] == Instr::Call(y);
                        assert(m.functions@[f as int].body().len() == 0);
                    }
                }
            }
        }
        f = f + 1;
    }
    proof {
        assert forall|x: u32, y: u32| #[trigger] has_edge(edges@, x, y) <==> calls(*m, x, y) by {
            if calls(*m, x, y) {
                assert(x < m.functions@.len());
            }
        }
    }
    edges
}

proof fn lemma_closed_iff_call_closed(m: Module, edges: Seq<(u32, u32)>, s: Set<u32>)
    requires
        forall|a: u32, b: u32| #[trigger] has_edge(edges, a, b) <==> calls(m, a, b),
    ensures
        closed_under(s, edges) <==> call_closed(m, s),
{
    if closed_under(s, edges) {
        assert forall|a: u32, b: u32| #[trigger] calls(m, a, b) && s.contains(a) implies s.contains(b) by {
            assert(has_edge(edges, a, b));
            let j = choose|j: int| 0 <= j < edges.len() && #[trigger] edges[j] == (a, b);
            assert(s.contains(edges[j].0));
        }
    }
    if call_closed(m, s) {
        assert forall|i: int| 0 <= i < edges.len() && s.contains(#[trigger] edges[i].0) implies s.contains(edges[i].1) by {
            let (a, b) = edges[i];
            assert(has_edge(edges, a, b));
            assert(calls(m, a, b));
        }
    }
}

/// The functions reachable from the start function; none if the module has no start function.
pub fn whitelisted_functions(m: &Module) -> (r: AddressSet)
    requires
        m.functions@.len() <= MAX_FUNCTIONS,
    ensures
        r.wf(),
        forall|f: u32| #[trigger] r.view().contains(f) <==> reachable_from_start(*m, f),
{
    let mut seeds = AddressSet::new();
    match m.start {
        Some(s) => {
            seeds.insert(s);
        },
        None => {
            return seeds;
        },
    }
    let edges = call_edges(m);
    let ghost sv = seeds.view();
    let r = seeds.close(&edges);
    proof {
        let s = m.start->0;
        lemma_closed_iff_call_closed(*m, edges@, r.view());
        assert forall|x: u32| #[trigger] r.view().contains(x) <==> reachable_from_start(*m, x) by {
            if r.view().contains(x) {
                assert(in_closure(sv, edges@, x));
                assert forall|l: Set<u32>| l.contains(s) && call_closed(*m, l) implies #[trigger] l.contains(x) by {
                    lemma_closed_iff_call_closed(*m, edges@, l);
                    assert(sv.subset_of(l));
                }
            }
            if reachable_from_start(*m, x) {
                assert(sv.contains(s));
            }
        }
    }
    r
}

} // verus!
