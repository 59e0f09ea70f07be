//! The pointer-hardening pass: every function pointer found at a static address is
//! encrypted at rest with the run's canary, and decrypted right before each indirect call.
use vstd::prelude::*;
use crate::address_set::{AddressSet, lemma_sorted_unique};
use crate::wasm::data_view;
use crate::encryption::{
    calls_patched, encrypt_all, lemma_padding_restoration_all, lemma_round_trip, padded_len, padded_view, encrypt_pointers, locate, module_resolved_sites,
    patch_call_sites, saturated,
};
use crate::resolver::{is_pointer_address, resolve_pointer_addresses};
use crate::write_protection::{
    guard_shapes, lemma_guard_shapes_views, lemma_protection_respects_views, protected_stores, write_protect_range,
    write_protected,
};
use crate::wasm::{same_function, same_module, Module, MAX_FUNCTIONS};

verus! {

/// The low byte every canary carries, so that the lowest byte of an encrypted small
/// table index is not zero.
pub const CANARY_LOW_BYTE: u32 = 0xa5;

/// The canary of a run started at time `t`: the high 24 bits of the low 32 bits of `t`,
/// with the fixed low byte.
pub fn canary_from_time(t: u64) -> (c: u32)
    ensures
        c & 0xff == CANARY_LOW_BYTE,
        c >> 8 == (t as u32) >> 8,
{
    let low: u32 = t as u32;
    let c = (low & 0xffff_ff00) | CANARY_LOW_BYTE;
    assert(c & 0xff == 0xa5 && c >> 8 == low >> 8) by (bit_vector)
        requires
            c == (low & 0xffff_ff00) | 0xa5u32,
    ;
    c
}

/// A pointer address that no data segment holds.
#[derive(Clone, Copy, Debug, PartialEq, Eq, Structural)]
pub enum HardenError {
    UnlocatedPointer(u32),
}

/// What a hardening run did: the call sites it patched and the addresses it encrypted.
#[derive(Clone, Debug)]
pub struct HardenReport {
    pub patched_call_sites: usize,
    pub pointer_addresses: AddressSet,
}

/// From the lowest address to four bytes past the highest; none for no address, or when
/// that end does not fit in 32 bits.
pub open spec fn pointer_range_of(addrs: Seq<u32>) -> Option<(u32, u32)> {
    if addrs.len() == 0 || addrs.last() + 4 > u32::MAX {
        None
    } else {
        Some((addrs[0], (addrs.last() + 4) as u32))
    }
}

/// The range to write-protect after hardening: from the lowest pointer address to the end of
/// the highest pointer. None when there is no pointer, or when that end does not fit in 32 bits.
pub fn pointer_range(addrs: &AddressSet) -> (r: Option<(u32, u32)>)
    requires
        addrs.wf(),
    ensures
        r == pointer_range_of(addrs.items@),
{
    let n = addrs.items.len();
    if n == 0 {
        return None;
    }
    let last = addrs.items[n - 1];
    if last > u32::MAX - 4 {
        return None;
    }
    Some((addrs.items[0], last + 4))
}

/// The addresses that hold function pointers.
pub open spec fn pointer_set(m: Module) -> Set<u32> {
    Set::new(|x: u32| is_pointer_address(m, x))
}

/// `new` is `old` with the pointers at `addrs` encrypted in the data segments, in that order,
/// and every resolved indirect call preceded by the decryption.
pub open spec fn hardened(old: Module, new: Module, addrs: Seq<u32>, c: u32) -> bool {
    &&& new.functions@.len() == old.functions@.len()
    &&& forall|f: int| 0 <= f < old.functions@.len() ==> calls_patched(#[trigger] old.functions@[f], new.functions@[f], c)
    &&& data_view(new) == encrypt_all(data_view(old), addrs, c)
    &&& new.start == old.start
}

/// Every pointer address is held by a data segment.
pub open spec fn pointers_located(m: Module) -> bool {
    forall|a: u32| #[trigger] is_pointer_address(m, a) ==> locate(data_view(m), a) is Some
}

/// Hardens the module's function pointers with the canary. Fails, changing nothing, when
/// a pointer address lies in no data segment.
pub fn harden_module(module: &mut Module, canary: u32) -> (r: Result<HardenReport, HardenError>)
    ensures
        r is Ok <==> pointers_located(*old(module)),
        match r {
            Ok(rep) => {
                &&& rep.pointer_addresses.wf()
                &&& rep.pointer_addresses.view() == pointer_set(*old(module))
                &&& hardened(*old(module), *final(module), rep.pointer_addresses.items@, canary)
                &&& rep.patched_call_sites == saturated(
                    module_resolved_sites(old(module).functions@, old(module).functions@.len() as int))
            },
            Err(HardenError::UnlocatedPointer(a)) => {
                &&& is_pointer_address(*old(module), a)
                &&& locate(data_view(*old(module)), a) is None
                &&& *final(module) == *old(module)
            },
        },
{
    let ghost orig = *module;
    let addrs = resolve_pointer_addresses(module);
    assert(addrs.view() =~= pointer_set(*module));
    match encrypt_pointers(module, &addrs, canary) {
        Ok(()) => {
            assert forall|a: u32| #[trigger] is_pointer_address(orig, a) implies locate(data_view(orig), a) is Some by {
                assert(addrs.view().contains(a));
            }
        },
        Err(a) => {
            return Err(HardenError::UnlocatedPointer(a));
        },
    }
    let ghost encrypted = *module;
    let n = patch_call_sites(module, canary);
    assert(data_view(*module) == data_view(encrypted));
    Ok(HardenReport { patched_call_sites: n, pointer_addresses: addrs })
}

/// Determinism: two hardening runs with the same canary on the same module give the same module.
pub proof fn lemma_hardening_deterministic(m: Module, c: u32, out1: Module, out2: Module, a1: AddressSet, a2: AddressSet)
    requires
        a1.wf(),
        a2.wf(),
        a1.view() == pointer_set(m),
        a2.view() == pointer_set(m),
        hardened(m, out1, a1.items@, c),
        hardened(m, out2, a2.items@, c),
    ensures
        same_module(out1, out2),
{
    assert forall|x: u32| a1.items@.contains(x) <==> a2.items@.contains(x) by {
        assert(a1.view().contains(x) == a1.items@.contains(x));
        assert(a2.view().contains(x) == a2.items@.contains(x));
        assert(a1.view() == a2.view());
    }
    lemma_sorted_unique(a1.items@, a2.items@);
    assert forall|f: int| 0 <= f < out1.functions@.len() implies same_function(#[trigger] out1.functions@[f], out2.functions@[f]) by {
        assert(calls_patched(m.functions@[f], out1.functions@[f], c));
        assert(calls_patched(m.functions@[f], out2.functions@[f], c));
    }
}

/// Round trip on modules: encrypting a hardened module's data once more with the run's
/// addresses and canary gives back the data segments of the module before hardening.
pub proof fn lemma_decrypt_hardened(m: Module, out: Module, addrs: Seq<u32>, c: u32, back: Module)
    requires
        hardened(m, out, addrs, c),
        data_view(back) == encrypt_all(data_view(out), addrs, c),
    ensures
        padded_view(data_view(back)) == padded_view(data_view(m)),
{
    lemma_round_trip(data_view(m), addrs, c);
}

/// Padding restoration for a hardening run, segment by segment: see `lemma_padding_restoration_all`.
pub proof fn lemma_hardened_padding(m: Module, out: Module, addrs: Seq<u32>, c: u32, i: int, j: int)
    requires
        hardened(m, out, addrs, c),
        0 <= i < data_view(m).len(),
        0 <= j < data_view(m)[i].len(),
    ensures
        ({
            let v = data_view(m);
            let n = v[i][j].1.len();
            let k = data_view(out)[i][j].1.len();
            &&& (forall|a: u32| addrs.contains(a) && locate(v, a) == Some((i, j)) ==> a - v[i][j].0 + 4 <= n) ==> k == n
            &&& (exists|a: u32| addrs.contains(a) && locate(v, a) == Some((i, j)) && a - v[i][j].0 + 4 == padded_len(n))
                ==> k == padded_len(n) && (k != n <==> n % 4 != 0)
        }),
{
    lemma_padding_restoration_all(data_view(m), addrs, c, i, j);
}

/// What the whole run did: the hardening, and the range write-protected with the number of
/// stores guarded, when there was one to protect and the guards fitted.
#[derive(Clone, Debug)]
pub struct PipelineReport {
    pub hardening: HardenReport,
    pub protected_range: Option<(u32, u32)>,
    pub protected_stores: Option<usize>,
}

/// The guards for `h` fit in the function-index space.
pub open spec fn fits_guards(h: Module) -> bool {
    h.functions@.len() + guard_shapes(h).len() <= MAX_FUNCTIONS
}

/// `new` is the hardened module `h` write-protected on `range` when there is one and the
/// guards fit, and `h` itself otherwise; `stores` is the number of stores guarded, if any.
pub open spec fn protected_after(h: Module, new: Module, range: Option<(u32, u32)>, stores: Option<usize>) -> bool {
    match range {
        Some((s, e)) => if fits_guards(h) {
            write_protected(h, new, s, e) && stores == Some(saturated(protected_stores(h)) as usize)
        } else {
            new == h && stores is None
        },
        None => new == h && stores is None,
    }
}

/// A successful run on `old` with canary `c`: hardened, then, when `protect` asks for it,
/// write-protected from the lowest pointer address to the end of the highest pointer.
pub open spec fn pipeline_done(old: Module, new: Module, rep: PipelineReport, c: u32, protect: bool) -> bool {
    let addrs = rep.hardening.pointer_addresses;
    &&& addrs.wf()
    &&& addrs.view() == pointer_set(old)
    &&& rep.hardening.patched_call_sites == saturated(module_resolved_sites(old.functions@, old.functions@.len() as int))
    &&& rep.protected_range == if protect { pointer_range_of(addrs.items@) } else { None }
    &&& exists|h: Module| #[trigger] hardened(old, h, addrs.items@, c)
        && protected_after(h, new, rep.protected_range, rep.protected_stores)
}

/// Hardens the module's function pointers with the canary and, when `protect` is set,
/// write-protects the range they occupy. Fails, changing nothing, when a pointer address
/// lies in no data segment.
pub fn harden_and_protect(module: &mut Module, canary: u32, protect: bool) -> (r: Result<PipelineReport, HardenError>)
    ensures
        r is Ok <==> pointers_located(*old(module)),
        match r {
            Ok(rep) => pipeline_done(*old(module), *final(module), rep, canary, protect),
            Err(HardenError::UnlocatedPointer(a)) => {
                &&& is_pointer_address(*old(module), a)
                &&& locate(data_view(*old(module)), a) is None
                &&& *final(module) == *old(module)
            },
        },
{
    let ghost orig = *module;
    let hardening = match harden_module(module, canary) {
        Ok(rep) => rep,
        Err(e) => {
            return Err(e);
        },
    };
    let ghost h = *module;
    let protected_range = if protect { pointer_range(&hardening.pointer_addresses) } else { None };
    let mut protected_stores: Option<usize> = None;
    if let Some((s, e)) = protected_range {
        assert(hardening.pointer_addresses.items@[0] <= hardening.pointer_addresses.items@.last());
        match write_protect_range(module, s, e) {
            Ok(n) => {
                protected_stores = Some(n);
            },
            Err(_) => {},
        }
    }
    let rep = PipelineReport { hardening, protected_range, protected_stores };
    assert(hardened(orig, h, rep.hardening.pointer_addresses.items@, canary)
        && protected_after(h, *module, rep.protected_range, rep.protected_stores));
    Ok(rep)
}

/// Determinism of the pipeline: two runs on the same module with the same canary and the
/// same choice of protection give the same module.
pub proof fn lemma_pipeline_deterministic(
    m: Module,
    c: u32,
    protect: bool,
    r1: PipelineReport,
    r2: PipelineReport,
    out1: Module,
    out2: Module,
)
    requires
        pipeline_done(m, out1, r1, c, protect),
        pipeline_done(m, out2, r2, c, protect),
    ensures
        same_module(out1, out2),
{
    let a1 = r1.hardening.pointer_addresses;
    let a2 = r2.hardening.pointer_addresses;
    let h1 = choose|h: Module| #[trigger] hardened(m, h, a1.items@, c)
        && protected_after(h, out1, r1.protected_range, r1.protected_stores);
    let h2 = choose|h: Module| #[trigger] hardened(m, h, a2.items@, c)
        && protected_after(h, out2, r2.protected_range, r2.protected_stores);
    lemma_hardening_deterministic(m, c, h1, h2, a1, a2);
    assert forall|x: u32| a1.items@.contains(x) <==> a2.items@.contains(x) by {
        assert(a1.view().contains(x) == a1.items@.contains(x));
        assert(a2.view().contains(x) == a2.items@.contains(x));
    }
    lemma_sorted_unique(a1.items@, a2.items@);
    lemma_guard_shapes_views(h1, h2);
    match r1.protected_range {
        Some((s, e)) => {
            if fits_guards(h1) {
                lemma_protection_respects_views(h1, h2, out1, out2, s, e);
            }
        },
        None => {},
    }
}

} // verus!
