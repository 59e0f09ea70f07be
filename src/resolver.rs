//! The set of linear-memory addresses that hold function pointers: the addresses indirect
//! calls read from, closed under the 32-bit copies between static addresses.
use vstd::prelude::*;
use crate::address_set::{AddressSet, closed_under, has_edge, in_closure};
use crate::scanner::{call_site_address, copy_at, resolve_call_site, resolve_copy};
use crate::wasm::Module;

verus! {

/// Some indirect call of the module calls through a pointer read from `a`.
pub open spec fn is_call_site_address(m: Module, a: u32) -> bool {
    exists|f: int, k: int|
        0 <= f < m.functions.len() && #[trigger] call_site_address(m.functions[f].body(), k) == Some(a)
}

/// Some store of the module copies a 32-bit value between `a` and `b`, in either direction.
pub open spec fn copy_linked(m: Module, a: u32, b: u32) -> bool {
    exists|f: int, s: int|
        0 <= f < m.functions.len() && (#[trigger] copy_at(m.functions[f].body(), s) == Some((a, b))
            || copy_at(m.functions[f].body(), s) == Some((b, a)))
}

/// A copy never links a member of `s` to a non-member.
pub open spec fn alias_closed(m: Module, s: Set<u32>) -> bool {
    forall|a: u32, b: u32| #[trigger] copy_linked(m, a, b) && s.contains(a) ==> s.contains(b)
}

/// Every call-site address is in `s`.
pub open spec fn holds_call_sites(m: Module, s: Set<u32>) -> bool {
    forall|a: u32| #[trigger] is_call_site_address(m, a) ==> s.contains(a)
}

/// `x` holds a function pointer: it lies in every alias-closed set of the call-site addresses.
pub open spec fn is_pointer_address(m: Module, x: u32) -> bool {
    forall|l: Set<u32>| holds_call_sites(m, l) && alias_closed(m, l) ==> #[trigger] l.contains(x)
}

/// The sites found in the bodies of the functions before `f`, and in function `f` before `i`.
spec fn sites_found(m: Module, a: u32, f: int, i: int) -> bool {
    (exists|g: int, k: int| 0 <= g < f && #[trigger] call_site_address(m.functions[g].body(), k) == Some(a))
    || (exists|k: int| 0 <= k < i && #[trigger] call_site_address(m.functions[f].body(), k) == Some(a))
}

/// The addresses that the module's indirect calls read their pointers from.
pub fn call_site_addresses(m: &Module) -> (r: AddressSet)
    ensures
        r.wf(),
        forall|a: u32| #[trigger] r.view().contains(a) <==> is_call_site_address(*m, a),
{
    let mut s = AddressSet::new();
    let mut f: usize = 0;
    while f < m.functions.len()
        invariant
            f <= m.functions.len(),
            s.wf(),
            forall|a: u32| #[trigger] s.view().contains(a) <==> exists|g: int, k: int|
                0 <= g < f && #[trigger] call_site_address(m.functions[g].body(), k) == Some(a),
        decreases m.functions.len() - f,
    {
        if let Some(body) = &m.functions[f].code {
            let mut i: usize = 0;
            while i < body.len()
                invariant
                    i <= body.len(),
                    f < m.functions.len(),
                    body@ == m.functions[f as int].body(),
                    s.wf(),
                    forall|a: u32| #[trigger] s.view().contains(a) <==> sites_found(*m, a, f as int, i as int),
                decreases body.len() - i,
            {
                if let Some(a) = resolve_call_site(body, i) {
                    s.insert(a);
                }
                proof {
                    assert forall|x: u32| #[trigger] s.view().contains(x) <==> sites_found(*m, x, f as int, i + 1) by {
                        if call_site_address(body@, i as int) == Some(x) {
                            assert(sites_found(*m, x, f as int, i + 1));
                        }
                        if sites_found(*m, x, f as int, i + 1) && !sites_found(*m, x, f as int, i as int) {
                            let k = choose|k: int| 0 <= k < i + 1 && #[trigger] call_site_address(m.functions[f as int].body(), k) == Some(x);
                            assert(k == i);
                        }
                    }
                }
                i = i + 1;
            }
            proof {
                assert forall|x: u32| #[trigger] s.view().contains(x) <==> exists|g: int, k: int|
                    0 <= g < f + 1 && #[trigger] call_site_address(m.functions[g].body(), k) == Some(x) by {
                    if s.view().contains(x) {
                        if exists|k: int| 0 <= k < i && #[trigger] call_site_address(m.functions[f as int].body(), k) == Some(x) {
                            let k = choose|k: int| 0 <= k < i && #[trigger] call_site_address(m.functions[f as int].body(), k) == Some(x);
                            assert(call_site_address(m.functions[f as int].body(), k) == Some(x));
                        }
                    }
                    if exists|g: int, k: int| 0 <= g < f + 1 && #[trigger] call_site_address(m.functions[g].body(), k) == Some(x) {
                        let (g, k) = choose|g: int, k: int| 0 <= g < f + 1 && #[trigger] call_site_address(m.functions[g].body(), k) == Some(x);
                        if g == f {
                            assert(0 <= k < body@.len());
                            assert(sites_found(*m, x, f as int, i as int));
                        }
                    }
                }
            }
        } else {
            proof {
                assert forall|x: u32| #[trigger] s.view().contains(x) <==> exists|g: int, k: int|
                    0 <= g < f + 1 && #[trigger] call_site_address(m.functions[g].body(), k) == Some(x) by {
                    if exists|g: int, k: int| 0 <= g < f + 1 && #[trigger] call_site_address(m.functions[g].body(), k) == Some(x) {
                        let (g, k) = choose|g: int, k: int| 0 <= g < f + 1 && #[trigger] call_site_address(m.functions[g].body(), k) == Some(x);
                        if g == f {
                            assert(m.functions[g].body().len() == 0);
                        } else {
                            assert(exists|g: int, k: int| 0 <= g < f && #[trigger] call_site_address(m.functions[g].body(), k) == Some(x));
                        }
                    }
                }
            }
        }
        f = f + 1;
    }
    s
}

spec fn copy_in(m: Module, g: int, a: u32, b: u32) -> bool {
    exists|s: int| #[trigger] copy_at(m.functions[g].body(), s) == Some((a, b))
        || copy_at(m.functions[g].body(), s) == Some((b, a))
}

spec fn copy_in_prefix(m: Module, g: int, i: int, a: u32, b: u32) -> bool {
    exists|s: int| 0 <= s < i && (#[trigger] copy_at(m.functions[g].body(), s) == Some((a, b))
        || copy_at(m.functions[g].body(), s) == Some((b, a)))
}

/// Both directions of every 32-bit copy between static addresses in the module.
pub fn copy_edges(m: &Module) -> (r: Vec<(u32, u32)>)
    ensures
        forall|a: u32, b: u32| #[trigger] has_edge(r@, a, b) <==> copy_linked(*m, a, b),
{
    let mut edges: Vec<(u32, u32)> = Vec::new();
    let mut f: usize = 0;
    while f < m.functions.len()
        invariant
            f <= m.functions.len(),
            forall|a: u32, b: u32| #[trigger] has_edge(edges@, a, b) <==> exists|g: int| 0 <= g < f && #[trigger] copy_in(*m, g, a, b),
        decreases m.functions.len() - f,
    {
        if let Some(body) = &m.functions[f].code {
            let mut i: usize = 0;
            while i < body.len()
                invariant
                    i <= body.len(),
                    f < m.functions.len(),
                    body@ == m.functions[f as int].body(),
                    forall|a: u32, b: u32| #[trigger] has_edge(edges@, a, b) <==>
                        (exists|g: int| 0 <= g < f && #[trigger] copy_in(*m, g, a, b)) || copy_in_prefix(*m, f as int, i as int, a, b),
                decreases body.len() - i,
            {
                let ghost before = edges@;
                if let Some((a, b)) = resolve_copy(body, i) {
                    edges.push((a, b));
                    edges.push((b, a));
                }
                proof {
                    assert forall|x: u32, y: u32| #[trigger] has_edge(edges@, x, y) <==>
                        (exists|g: int| 0 <= g < f && #[trigger] copy_in(*m, g, x, y)) || copy_in_prefix(*m, f as int, i + 1, x, y) by {
                        if has_edge(edges@, x, y) && !has_edge(before, x, y) {
                            let j = choose|j: int| 0 <= j < edges@.len() && #[trigger] edges@[j] == (x, y);
                            assert(copy_at(body@, i as int) is Some);
                            if j == before.len() {
                                assert(copy_at(m.functions[f as int].body(), i as int) == Some((x, y)));
                            } else if j == before.len() + 1 {
                                assert(copy_at(m.functions[f as int].body(), i as int) == Some((y, x)));
                            } else {
                                assert(before[j] == (x, y));
                            }
                        }
                        if has_edge(before, x, y) {
                            let j = choose|j: int| 0 <= j < before.len() && #[trigger] before[j] == (x, y);
                            assert(edges@[j] == (x, y));
                        }
                        if copy_in_prefix(*m, f as int, i + 1, x, y) && !copy_in_prefix(*m, f as int, i as int, x, y) {
                            let s = choose|s: int| 0 <= s < i + 1 && (#[trigger] copy_at(m.functions[f as int].body(), s) == Some((x, y))
                                || copy_at(m.functions[f as int].body(), s) == Some((y, x)));
                            assert(s == i);
                            let n = before.len() as int;
                            if copy_at(body@, i as int) == Some((x, y)) {
                                assert(edges@[n] == (x, y));
                            } else {
                                assert(edges@[n + 1] == (x, y));
                            }
                        }
                    }
                }
                i = i + 1;
            }
            proof {
                assert forall|x: u32, y: u32| #[trigger] has_edge(edges@, x, y) <==>
                    exists|g: int| 0 <= g < f + 1 && #[trigger] copy_in(*m, g, x, y) by {
                    if copy_in(*m, f as int, x, y) {
                        let s = choose|s: int| #[trigger] copy_at(m.functions[f as int].body(), s) == Some((x, y))
                            || copy_at(m.functions[f as int].body(), s) == Some((y, x));
                        assert(0 <= s < body@.len());
                        assert(copy_in_prefix(*m, f as int, i as int, x, y));
                    }
                    if copy_in_prefix(*m, f as int, i as int, x, y) {
                        let s = choose|s: int| 0 <= s < i && (#[trigger] copy_at(m.functions[f as int].body(), s) == Some((x, y))
                            || copy_at(m.functions[f as int].body(), s) == Some((y, x)));
                        assert(copy_in(*m, f as int, x, y));
                    }
                    if exists|g: int| 0 <= g < f + 1 && #[trigger] copy_in(*m, g, x, y) {
                        let g = choose|g: int| 0 <= g < f + 1 && #[trigger] copy_in(*m, g, x, y);
                        if g < f {
                            assert(exists|g: int| 0 <= g < f && #[trigger] copy_in(*m, g, x, y));
                        }
                    }
                }
            }
        } else {
            proof {
                assert forall|x: u32, y: u32| #[trigger] has_edge(edges@, x, y) <==>
                    exists|g: int| 0 <= g < f + 1 && #[trigger] copy_in(*m, g, x, y) by {
                    if exists|g: int| 0 <= g < f + 1 && #[trigger] copy_in(*m, g, x, y) {
                        let g = choose|g: int| 0 <= g < f + 1 && #[trigger] copy_in(*m, g, x, y);
                        if g == f {
                            let s = choose|s: int| #[trigger] copy_at(m.functions[g].body(), s) == Some((x, y))
                                || copy_at(m.functions[g].body(), s) == Some((y, x));
                            assert(m.functions[g].body().len() == 0);
                        } else {
                            assert(exists|g: int| 0 <= g < f && #[trigger] copy_in(*m, g, x, y));
                        }
                    }
                }
            }
        }
        f = f + 1;
    }
    proof {
        assert forall|x: u32, y: u32| #[trigger] has_edge(edges@, x, y) <==> copy_linked(*m, x, y) by {
            if copy_linked(*m, x, y) {
                let (g, s) = choose|g: int, s: int| 0 <= g < m.functions.len() && (#[trigger] copy_at(m.functions[g].body(), s) == Some((x, y))
                    || copy_at(m.functions[g].body(), s) == Some((y, x)));
                assert(copy_in(*m, g, x, y));
            }
            if has_edge(edges@, x, y) {
                let g = choose|g: int| 0 <= g < f && #[trigger] copy_in(*m, g, x, y);
                let s = choose|s: int| #[trigger] copy_at(m.functions[g].body(), s) == Some((x, y))
                    || copy_at(m.functions[g].body(), s) == Some((y, x));
                assert(copy_linked(*m, x, y));
            }
        }
    }
    edges
}

proof fn lemma_closed_iff_alias_closed(m: Module, edges: Seq<(u32, u32)>, s: Set<u32>)
    requires
        forall|a: u32, b: u32| #[trigger] has_edge(edges, a, b) <==> copy_linked(m, a, b),
    ensures
        closed_under(s, edges) <==> alias_closed(m, s),
{
    if closed_under(s, edges) {
        assert forall|a: u32, b: u32| #[trigger] copy_linked(m, a, b) && s.contains(a) implies s.contains(b) by {
            assert(has_edge(edges, a, b));
            let j = choose|j: int| 0 <= j < edges.len() && #[trigger] edges[j] == (a, b);
            assert(s.contains(edges[j].0));
        }
    }
    if alias_closed(m, s) {
        assert forall|i: int| 0 <= i < edges.len() && s.contains(#[trigger] edges[i].0) implies s.contains(edges[i].1) by {
            let (a, b) = edges[i];
            assert(has_edge(edges, a, b));
            assert(copy_linked(m, a, b));
        }
    }
}

/// Every address holding a function pointer: the call-site addresses, and every address
/// linked to one of them by a chain of copies. The result is a fixed point: no copy links
/// a member to a non-member.
pub fn resolve_pointer_addresses(m: &Module) -> (r: AddressSet)
    ensures
        r.wf(),
        forall|x: u32| #[trigger] r.view().contains(x) <==> is_pointer_address(*m, x),
        holds_call_sites(*m, r.view()),
        alias_closed(*m, r.view()),
{
    let seeds = call_site_addresses(m);
    let edges = copy_edges(m);
    let ghost sv = seeds.view();
    let r = seeds.close(&edges);
    proof {
        lemma_closed_iff_alias_closed(*m, edges@, r.view());
        assert forall|x: u32| #[trigger] r.view().contains(x) <==> is_pointer_address(*m, x) by {
            if r.view().contains(x) {
                assert(in_closure(sv, edges@, x));
                assert forall|l: Set<u32>| holds_call_sites(*m, l) && alias_closed(*m, l) implies #[trigger] l.contains(x) by {
                    lemma_closed_iff_alias_closed(*m, edges@, l);
                    assert(sv.subset_of(l));
                }
            }
            if is_pointer_address(*m, x) {
                assert(sv.subset_of(r.view()));
                assert(holds_call_sites(*m, r.view()));
            }
        }
    }
    r
}

/// Resolution is a fixed point: resolving again from the resolved addresses, as seeds, adds
/// no address — the least alias-closed set holding the pointer addresses is those addresses.
pub proof fn lemma_resolution_fixed_point(m: Module, x: u32)
    ensures
        (forall|l: Set<u32>| (forall|a: u32| #[trigger] is_pointer_address(m, a) ==> l.contains(a))
            && alias_closed(m, l) ==> #[trigger] l.contains(x)) <==> is_pointer_address(m, x),
{
    let p = Set::new(|a: u32| is_pointer_address(m, a));
    assert(alias_closed(m, p)) by {
        assert forall|a: u32, b: u32| #[trigger] copy_linked(m, a, b) && p.contains(a) implies p.contains(b) by {
            assert forall|l: Set<u32>| holds_call_sites(m, l) && alias_closed(m, l) implies #[trigger] l.contains(b) by {
                assert(l.contains(a));
            }
        }
    }
    assert(holds_call_sites(m, p)) by {
        assert forall|a: u32| #[trigger] is_call_site_address(m, a) implies p.contains(a) by {
            assert forall|l: Set<u32>| holds_call_sites(m, l) && alias_closed(m, l) implies #[trigger] l.contains(a) by {}
        }
    }
    if forall|l: Set<u32>| (forall|a: u32| #[trigger] is_pointer_address(m, a) ==> l.contains(a))
        && alias_closed(m, l) ==> #[trigger] l.contains(x) {
        assert(p.contains(x));
    }
}

} // verus!
