use wassy::address_set::AddressSet;
use wassy::encryption::{encrypt_pointers, locate_pointer, patch_body};
use wassy::pointer_hardening::{
    canary_from_time, harden_and_protect, harden_module, pointer_range, HardenError, CANARY_LOW_BYTE,
};
use wassy::resolver::{call_site_addresses, copy_edges, resolve_pointer_addresses};
use wassy::scanner::{resolve_call_site, resolve_copy, scan_call_sites};
use wassy::wasm::{BinaryOp, DataSegment, Function, Instr, LoadOp, Memarg, Memory, Module, StoreOp, Val, ValType};

fn memarg(offset: u32) -> Memarg {
    Memarg { alignment_exp: 2, offset }
}

fn func(body: Vec<Instr>) -> Function {
    Function::new(vec![], vec![], vec![], body)
}

fn module(functions: Vec<Function>, segments: Vec<DataSegment>) -> Module {
    Module { functions, memories: vec![Memory { data: segments }], start: None }
}

fn call_through(addr: i32, offset: u32) -> Vec<Instr> {
    vec![Instr::Const(Val::I32(addr)), Instr::Load(LoadOp::I32Load, memarg(offset)), Instr::CallIndirect(0, 0)]
}

#[test]
fn single_pointer_is_encrypted_and_decrypted_before_call() {
    let canary: u32 = 0x1234_56a5;
    let mut body = call_through(256, 0);
    body.push(Instr::End);
    let mut m = module(vec![func(body)], vec![DataSegment { offset: 256, bytes: vec![3, 0, 0, 0] }]);
    let report = harden_module(&mut m, canary).unwrap();
    assert_eq!(report.patched_call_sites, 1);
    assert_eq!(report.pointer_addresses.items, vec![256]);
    assert_eq!(m.memories[0].data[0].bytes, (3u32 ^ canary).to_le_bytes().to_vec());
    assert_eq!(
        m.functions[0].code.clone().unwrap(),
        vec![
            Instr::Const(Val::I32(256)),
            Instr::Load(LoadOp::I32Load, memarg(0)),
            Instr::Const(Val::I32(canary as i32)),
            Instr::Binary(BinaryOp::I32Xor),
            Instr::CallIndirect(0, 0),
            Instr::End,
        ]
    );
}

#[test]
fn load_offset_is_added_to_constant() {
    let body = call_through(0x100, 8);
    assert_eq!(resolve_call_site(&body, 2), Some(0x108));
}

#[test]
fn negative_constant_reads_as_unsigned_address() {
    let body = call_through(-16, 4);
    assert_eq!(resolve_call_site(&body, 2), Some(0xffff_fff4));
    let body = call_through(-4, 8);
    assert_eq!(resolve_call_site(&body, 2), None);
}

#[test]
fn nearest_constant_is_taken() {
    let body = vec![
        Instr::Const(Val::I32(100)),
        Instr::Const(Val::I32(200)),
        Instr::Other(7),
        Instr::Load(LoadOp::I32Load, memarg(0)),
        Instr::CallIndirect(0, 0),
    ];
    assert_eq!(resolve_call_site(&body, 4), Some(200));
}

#[test]
fn unresolved_call_sites() {
    // no load before the call
    let body = vec![Instr::Const(Val::I32(100)), Instr::CallIndirect(0, 0)];
    assert_eq!(resolve_call_site(&body, 1), None);
    // another indirect call between the load and this one
    let body = vec![
        Instr::Const(Val::I32(100)),
        Instr::Load(LoadOp::I32Load, memarg(0)),
        Instr::CallIndirect(0, 0),
        Instr::CallIndirect(0, 0),
    ];
    assert_eq!(resolve_call_site(&body, 3), None);
    // no constant before the load
    let body = vec![Instr::LocalGet(0), Instr::Load(LoadOp::I32Load, memarg(0)), Instr::CallIndirect(0, 0)];
    assert_eq!(resolve_call_site(&body, 2), None);
    // the nearest load is not a 32-bit load
    let body = vec![Instr::Const(Val::I32(100)), Instr::Load(LoadOp::I32Load8U, memarg(0)), Instr::CallIndirect(0, 0)];
    assert_eq!(resolve_call_site(&body, 2), None);
    // not an indirect call
    assert_eq!(resolve_call_site(&body, 1), None);
}

#[test]
fn copy_pattern_is_resolved() {
    let body = vec![
        Instr::Const(Val::I32(0x200)),
        Instr::Const(Val::I32(0x100)),
        Instr::Load(LoadOp::I32Load, memarg(4)),
        Instr::Store(StoreOp::I32Store, memarg(8)),
    ];
    assert_eq!(resolve_copy(&body, 3), Some((0x104, 0x208)));
    assert_eq!(resolve_copy(&body, 2), None);
}

fn aliasing_module() -> Module {
    // function 0 copies the pointer at 0x10 to 0x20; function 1 calls through 0x20.
    let copy = vec![
        Instr::Const(Val::I32(0x20)),
        Instr::Const(Val::I32(0x10)),
        Instr::Load(LoadOp::I32Load, memarg(0)),
        Instr::Store(StoreOp::I32Store, memarg(0)),
        Instr::End,
    ];
    let mut call = call_through(0x20, 0);
    call.push(Instr::End);
    // a chained copy: 0x30 to 0x10
    let chain = vec![
        Instr::Const(Val::I32(0x10)),
        Instr::Const(Val::I32(0x30)),
        Instr::Load(LoadOp::I32Load, memarg(0)),
        Instr::Store(StoreOp::I32Store, memarg(0)),
        Instr::End,
    ];
    module(
        vec![func(copy), func(call), func(chain)],
        vec![DataSegment { offset: 0x10, bytes: vec![1; 0x24] }],
    )
}

#[test]
fn resolver_follows_copies_to_a_fixed_point() {
    let m = aliasing_module();
    assert_eq!(call_site_addresses(&m).items, vec![0x20]);
    let resolved = resolve_pointer_addresses(&m);
    assert_eq!(resolved.items, vec![0x10, 0x20, 0x30]);
    // resolving again from the result adds nothing
    let again = resolved.clone().close(&copy_edges(&m));
    assert_eq!(again.items, resolved.items);
}

#[test]
fn hardening_is_deterministic_for_a_fixed_canary() {
    let mut a = aliasing_module();
    let mut b = aliasing_module();
    harden_module(&mut a, 0xdead_bea5).unwrap();
    harden_module(&mut b, 0xdead_bea5).unwrap();
    assert_eq!(format!("{:?}", a), format!("{:?}", b));
}

#[test]
fn encrypting_again_with_same_canary_restores_data() {
    let plain = aliasing_module();
    let mut m = aliasing_module();
    let report = harden_module(&mut m, 0x0bad_f0a5).unwrap();
    assert_ne!(m.memories[0].data[0].bytes, plain.memories[0].data[0].bytes);
    encrypt_pointers(&mut m, &report.pointer_addresses, 0x0bad_f0a5).unwrap();
    assert_eq!(m.memories[0].data[0].bytes, plain.memories[0].data[0].bytes);
}

#[test]
fn unlocated_pointer_fails_without_change() {
    let mut body = call_through(0x400, 0);
    body.push(Instr::End);
    let mut m = module(vec![func(body)], vec![DataSegment { offset: 0, bytes: vec![0; 16] }]);
    let before = format!("{:?}", m);
    assert_eq!(harden_module(&mut m, 0x1111_11a5).unwrap_err(), HardenError::UnlocatedPointer(0x400));
    assert_eq!(format!("{:?}", m), before);
}

#[test]
fn pointer_inside_segment_keeps_length() {
    let mut m = module(vec![], vec![DataSegment { offset: 100, bytes: vec![0xaa; 10] }]);
    let mut addrs = AddressSet::new();
    addrs.insert(102);
    encrypt_pointers(&mut m, &addrs, 0x0403_0201).unwrap();
    assert_eq!(m.memories[0].data[0].bytes, vec![0xaa, 0xaa, 0xab, 0xa8, 0xa9, 0xae, 0xaa, 0xaa, 0xaa, 0xaa]);
}

#[test]
fn pointer_in_padding_extends_segment() {
    // 10 bytes stored, 12 after padding: a pointer at relative 8 reaches into the padding.
    let mut m = module(vec![], vec![DataSegment { offset: 100, bytes: vec![7; 10] }]);
    let mut addrs = AddressSet::new();
    addrs.insert(108);
    encrypt_pointers(&mut m, &addrs, 0x0403_0201).unwrap();
    assert_eq!(m.memories[0].data[0].bytes, vec![7, 7, 7, 7, 7, 7, 7, 7, 6, 5, 3, 4]);
}

#[test]
fn pointer_at_end_of_aligned_segment_keeps_length() {
    let mut m = module(vec![], vec![DataSegment { offset: 0, bytes: vec![0; 8] }]);
    let mut addrs = AddressSet::new();
    addrs.insert(4);
    encrypt_pointers(&mut m, &addrs, 0xa0b0_c0d0).unwrap();
    assert_eq!(m.memories[0].data[0].bytes, vec![0, 0, 0, 0, 0xd0, 0xc0, 0xb0, 0xa0]);
}

#[test]
fn pointer_beyond_padding_is_not_located() {
    let m = module(vec![], vec![DataSegment { offset: 0, bytes: vec![0; 9] }]);
    assert_eq!(locate_pointer(&m, 8), Some((0, 0)));
    assert_eq!(locate_pointer(&m, 9), None);
    assert_eq!(locate_pointer(&m, 12), None);
}

#[test]
fn first_holding_segment_is_used() {
    let m = Module {
        functions: vec![],
        memories: vec![
            Memory { data: vec![DataSegment { offset: 0, bytes: vec![1; 4] }] },
            Memory { data: vec![DataSegment { offset: 64, bytes: vec![1; 4] }, DataSegment { offset: 60, bytes: vec![1; 8] }] },
        ],
        start: None,
    };
    assert_eq!(locate_pointer(&m, 64), Some((1, 0)));
    assert_eq!(locate_pointer(&m, 61), Some((1, 1)));
}

#[test]
fn patch_body_counts_sites() {
    let mut body = call_through(16, 0);
    body.push(Instr::CallIndirect(0, 0));
    let (patched, n) = patch_body(&body, 5);
    assert_eq!(n, 1);
    assert_eq!(patched.len(), 6);
    assert_eq!(patched[2], Instr::Const(Val::I32(5)));
    assert_eq!(patched[5], Instr::CallIndirect(0, 0));
}

#[test]
fn canary_keeps_high_bits_of_time() {
    let c = canary_from_time(0x0000_0009_1234_5678);
    assert_eq!(c, 0x1234_56a5);
    assert_eq!(c & 0xff, CANARY_LOW_BYTE);
}

#[test]
fn pointer_range_spans_all_pointers() {
    let m = aliasing_module();
    let addrs = resolve_pointer_addresses(&m);
    assert_eq!(pointer_range(&addrs), Some((0x10, 0x34)));
    assert_eq!(pointer_range(&AddressSet::new()), None);
    let mut high = AddressSet::new();
    high.insert(u32::MAX - 2);
    assert_eq!(pointer_range(&high), None);
}

#[test]
fn function_without_code_is_left_alone() {
    let import = Function { type_: wassy::wasm::FunctionType { params: vec![ValType::I32], results: vec![] }, locals: vec![], code: None };
    let mut body = call_through(0, 0);
    body.push(Instr::End);
    let mut m = module(vec![import, func(body)], vec![DataSegment { offset: 0, bytes: vec![2, 0, 0, 0] }]);
    harden_module(&mut m, 0xffff_ffa5).unwrap();
    assert!(m.functions[0].code.is_none());
    assert_eq!(m.functions[1].code.as_ref().unwrap().len(), 6);
}

#[test]
fn scan_lists_resolved_sites_in_order() {
    let mut body = call_through(0x40, 0);
    body.push(Instr::CallIndirect(0, 0));
    body.extend(call_through(0x80, 4));
    assert_eq!(scan_call_sites(&body), vec![(2, 0x40), (6, 0x84)]);
    assert!(scan_call_sites(&vec![Instr::End]).is_empty());
}

#[test]
fn pipeline_protects_pointer_range() {
    // function 3 stores into the pointer range and is guarded; the run fills 0x10..0x34
    let mut m = aliasing_module();
    m.functions.push(func(vec![
        Instr::Const(Val::I32(0x20)),
        Instr::Const(Val::I32(9)),
        Instr::Store(StoreOp::I32Store, memarg(0)),
        Instr::End,
    ]));
    let report = harden_and_protect(&mut m, 0x5555_55a5, true).unwrap();
    assert_eq!(report.hardening.pointer_addresses.items, vec![0x10, 0x20, 0x30]);
    assert_eq!(report.protected_range, Some((0x10, 0x34)));
    // the copies of functions 0 and 2 and the store of function 3
    assert_eq!(report.protected_stores, Some(3));
    assert_eq!(m.functions.len(), 5);
    assert_eq!(m.functions[3].code.as_ref().unwrap()[2], Instr::Call(4));
}

#[test]
fn pipeline_without_protection_only_hardens() {
    let mut a = aliasing_module();
    let mut b = aliasing_module();
    let report = harden_and_protect(&mut a, 0x7777_77a5, false).unwrap();
    assert_eq!(report.protected_range, None);
    assert_eq!(report.protected_stores, None);
    harden_module(&mut b, 0x7777_77a5).unwrap();
    assert_eq!(format!("{:?}", a), format!("{:?}", b));
}

#[test]
fn pipeline_is_deterministic_for_a_fixed_canary() {
    let mut a = aliasing_module();
    let mut b = aliasing_module();
    harden_and_protect(&mut a, 0x0101_01a5, true).unwrap();
    harden_and_protect(&mut b, 0x0101_01a5, true).unwrap();
    assert_eq!(format!("{:?}", a), format!("{:?}", b));
}

#[test]
fn pipeline_fails_without_change_on_unlocated_pointer() {
    let mut body = call_through(0x400, 0);
    body.push(Instr::End);
    let mut m = module(vec![func(body)], vec![DataSegment { offset: 0, bytes: vec![0; 16] }]);
    let before = format!("{:?}", m);
    assert_eq!(harden_and_protect(&mut m, 0x1111_11a5, true).unwrap_err(), HardenError::UnlocatedPointer(0x400));
    assert_eq!(format!("{:?}", m), before);
}

#[test]
fn padding_restored_across_segments() {
    // segment 0 keeps 8 bytes (pointer inside); segment 1 grows from 6 to 8 (pointer at its padded end)
    let mut m = module(vec![], vec![
        DataSegment { offset: 0, bytes: vec![1; 8] },
        DataSegment { offset: 16, bytes: vec![1; 6] },
    ]);
    let mut addrs = AddressSet::new();
    addrs.insert(2);
    addrs.insert(20);
    encrypt_pointers(&mut m, &addrs, 0x0101_0101).unwrap();
    assert_eq!(m.memories[0].data[0].bytes.len(), 8);
    assert_eq!(m.memories[0].data[1].bytes, vec![1, 1, 1, 1, 0, 0, 1, 1]);
}
