//! Recovers the static addresses that indirect calls and pointer copies read from.
//!
//! The convention recognised is `i32.const A; ...; i32.load offset=O; ...; call_indirect`:
//! the pointer lives at `A + O`. Only the nearest constant before the load is taken.
use vstd::prelude::*;
use crate::wasm::{Instr, LoadOp, StoreOp, Val};

verus! {

/// Index of the nearest load before index `k`, unless an indirect call comes first.
pub open spec fn load_before(body: Seq<Instr>, k: int) -> Option<int>
    decreases k,
{
    if k <= 0 || k > body.len() {
        None
    } else if body[k - 1] is Load {
        Some(k - 1)
    } else if body[k - 1] is CallIndirect {
        None
    } else {
        load_before(body, k - 1)
    }
}

pub open spec fn is_i32_const(i: Instr) -> bool {
    i matches Instr::Const(Val::I32(_))
}

/// Index of the nearest `i32.const` before index `k`.
pub open spec fn i32_const_before(body: Seq<Instr>, k: int) -> Option<int>
    decreases k,
{
    if k <= 0 || k > body.len() {
        None
    } else if is_i32_const(body[k - 1]) {
        Some(k - 1)
    } else {
        i32_const_before(body, k - 1)
    }
}

/// The constant's value read as an unsigned 32-bit address.
pub open spec fn const_address(i: Instr) -> int {
    match i {
        Instr::Const(Val::I32(v)) => if v >= 0 { v as int } else { v + 0x1_0000_0000 },
        _ => 0,
    }
}

/// The address `base + offset`, when it fits in 32 bits.
pub open spec fn offset_address(base: int, offset: u32) -> Option<u32> {
    if base + offset <= u32::MAX {
        Some((base + offset) as u32)
    } else {
        None
    }
}

/// The address the `i32.load` at index `l` reads, through the nearest constant before it.
pub open spec fn load_address(body: Seq<Instr>, l: int) -> Option<u32> {
    match body[l] {
        Instr::Load(LoadOp::I32Load, m) => match i32_const_before(body, l) {
            Some(c) => offset_address(const_address(body[c]), m.offset),
            None => None,
        },
        _ => None,
    }
}

/// The address holding the pointer that the indirect call at index `k` calls through.
pub open spec fn call_site_address(body: Seq<Instr>, k: int) -> Option<u32> {
    if 0 <= k < body.len() && body[k] is CallIndirect {
        match load_before(body, k) {
            Some(l) => load_address(body, l),
            None => None,
        }
    } else {
        None
    }
}

/// The pair (source, destination) of a 32-bit copy whose store is at index `s`:
/// `i32.const B; i32.const A; i32.load offset=O; i32.store offset=P` copies `A + O` to `B + P`.
pub open spec fn copy_at(body: Seq<Instr>, s: int) -> Option<(u32, u32)> {
    if 0 <= s < body.len() {
        match body[s] {
            Instr::Store(StoreOp::I32Store, m) => match load_before(body, s) {
                Some(l) => match (load_address(body, l), i32_const_before(body, l)) {
                    (Some(src), Some(c)) => match i32_const_before(body, c) {
                        Some(d) => match offset_address(const_address(body[d]), m.offset) {
                            Some(dst) => Some((src, dst)),
                            None => None,
                        },
                        None => None,
                    },
                    _ => None,
                },
                None => None,
            },
            _ => None,
        }
    } else {
        None
    }
}

proof fn lemma_load_before_bounds(body: Seq<Instr>, k: int)
    ensures
        load_before(body, k) matches Some(l) ==> 0 <= l < k && l < body.len() && body[l] is Load,
    decreases k,
{
    if 0 < k <= body.len() && !(body[k - 1] is Load) && !(body[k - 1] is CallIndirect) {
        lemma_load_before_bounds(body, k - 1);
    }
}

proof fn lemma_const_before_bounds(body: Seq<Instr>, k: int)
    ensures
        i32_const_before(body, k) matches Some(c) ==> 0 <= c < k && c < body.len() && is_i32_const(body[c]),
    decreases k,
{
    if 0 < k <= body.len() && !is_i32_const(body[k - 1]) {
        lemma_const_before_bounds(body, k - 1);
    }
}

/// Finds the nearest load before index `k`, stopping at an indirect call.
fn find_load(body: &Vec<Instr>, k: usize) -> (r: Option<usize>)
    requires
        k <= body.len(),
    ensures
        match r {
            Some(l) => load_before(body@, k as int) == Some(l as int) && l < k,
            None => load_before(body@, k as int) is None,
        },
{
    proof {
        lemma_load_before_bounds(body@, k as int);
    }
    let mut j = k;
    while j > 0
        invariant
            j <= k <= body.len(),
            load_before(body@, k as int) == load_before(body@, j as int),
        decreases j,
    {
        match body[j - 1] {
            Instr::Load(_, _) => {
                return Some(j - 1);
            },
            Instr::CallIndirect(_, _) => {
                return None;
            },
            _ => {},
        }
        j = j - 1;
    }
    None
}

/// Finds the nearest `i32.const` before index `k`.
fn find_i32_const(body: &Vec<Instr>, k: usize) -> (r: Option<usize>)
    requires
        k <= body.len(),
    ensures
        match r {
            Some(c) => i32_const_before(body@, k as int) == Some(c as int) && c < k,
            None => i32_const_before(body@, k as int) is None,
        },
{
    proof {
        lemma_const_before_bounds(body@, k as int);
    }
    let mut j = k;
    while j > 0
        invariant
            j <= k <= body.len(),
            i32_const_before(body@, k as int) == i32_const_before(body@, j as int),
        decreases j,
    {
        if let Instr::Const(Val::I32(_)) = body[j - 1] {
            return Some(j - 1);
        }
        j = j - 1;
    }
    None
}

/// `base + offset` for the constant at index `c`, when it fits in 32 bits.
fn const_plus_offset(body: &Vec<Instr>, c: usize, offset: u32) -> (r: Option<u32>)
    requires
        c < body.len(),
    ensures
        r == offset_address(const_address(body@[c as int]), offset),
{
    let base: u64 = match body[c] {
        Instr::Const(Val::I32(v)) => if v >= 0 { v as u64 } else { (v as i64 + 0x1_0000_0000i64) as u64 },
        _ => 0,
    };
    if base + (offset as u64) <= 0xffff_ffffu64 {
        Some((base + offset as u64) as u32)
    } else {
        None
    }
}

fn resolve_load(body: &Vec<Instr>, l: usize) -> (r: Option<u32>)
    requires
        l < body.len(),
    ensures
        r == load_address(body@, l as int),
{
    match body[l] {
        Instr::Load(LoadOp::I32Load, m) => match find_i32_const(body, l) {
            Some(c) => const_plus_offset(body, c, m.offset),
            None => None,
        },
        _ => None,
    }
}

/// The address the indirect call at index `k` calls through, if the pattern resolves.
pub fn resolve_call_site(body: &Vec<Instr>, k: usize) -> (r: Option<u32>)
    ensures
        r == call_site_address(body@, k as int),
{
    if k < body.len() {
        if let Instr::CallIndirect(_, _) = body[k] {
            return match find_load(body, k) {
                Some(l) => resolve_load(body, l),
                None => None,
            };
        }
    }
    None
}

/// The (source, destination) addresses of the pointer copy whose store is at index `s`, if any.
pub fn resolve_copy(body: &Vec<Instr>, s: usize) -> (r: Option<(u32, u32)>)
    ensures
        r == copy_at(body@, s as int),
{
    if s >= body.len() {
        return None;
    }
    if let Instr::Store(StoreOp::I32Store, m) = body[s] {
        match find_load(body, s) {
            Some(l) => {
                let src = resolve_load(body, l);
                match (src, find_i32_const(body, l)) {
                    (Some(src), Some(c)) => match find_i32_const(body, c) {
                        Some(d) => match const_plus_offset(body, d, m.offset) {
                            Some(dst) => Some((src, dst)),
                            None => None,
                        },
                        None => None,
                    },
                    _ => None,
                }
            },
            None => None,
        }
    } else {
        None
    }
}

/// The resolved indirect calls among the first `n` instructions, as (index, address) pairs
/// in increasing index order.
pub open spec fn call_sites(body: Seq<Instr>, n: int) -> Seq<(usize, u32)>
    decreases n,
{
    if n <= 0 {
        Seq::empty()
    } else {
        match call_site_address(body, n - 1) {
            Some(a) => call_sites(body, n - 1).push(((n - 1) as usize, a)),
            None => call_sites(body, n - 1),
        }
    }
}

/// Every indirect call of the body whose pointer address resolves, with that address.
pub fn scan_call_sites(body: &Vec<Instr>) -> (r: Vec<(usize, u32)>)
    ensures
        r@ == call_sites(body@, body@.len() as int),
{
    let mut sites: Vec<(usize, u32)> = Vec::new();
    let mut k: usize = 0;
    while k < body.len()
        invariant
            k <= body.len(),
            sites@ == call_sites(body@, k as int),
        decreases body.len() - k,
    {
        if let Some(a) = resolve_call_site(body, k) {
            sites.push((k, a));
        }
        k = k + 1;
    }
    sites
}

} // verus!
