use wassy::errors::io_err;
use wassy::monitor_inst::monitor_test;
use wassy::whitelist::whitelisted_functions;
use wassy::wasm::{BinaryOp, Function, Instr, Memarg, Module, StoreOp, UnaryOp, Val, ValType};
use wassy::write_protection::{guard_function, width_of, write_protect_range};

fn memarg(offset: u32) -> Memarg {
    Memarg { alignment_exp: 0, offset }
}

fn func(body: Vec<Instr>) -> Function {
    Function::new(vec![], vec![], vec![], body)
}

fn store_at(addr: i32, op: StoreOp, offset: u32) -> Vec<Instr> {
    vec![Instr::Const(Val::I32(addr)), Instr::Const(Val::I32(0x0102_0304)), Instr::Store(op, memarg(offset)), Instr::End]
}

#[derive(Clone, Copy, Debug)]
enum V {
    I32(u32),
    I64(u64),
}

/// Runs a guard body on `(addr, value)`: `Err(())` on a trap, otherwise the memory after it.
fn run_guard(body: &[Instr], addr: u32, value: u64, mut mem: Vec<u8>) -> Result<Vec<u8>, ()> {
    let locals = [V::I32(addr), V::I64(value)];
    let mut stack: Vec<V> = Vec::new();
    let mut pc = 0;
    while pc < body.len() {
        match body[pc] {
            Instr::Block => {}
            Instr::End => {
                if pc == body.len() - 1 {
                    return Ok(mem);
                }
            }
            Instr::LocalGet(i) => stack.push(locals[i as usize]),
            Instr::Const(Val::I64(v)) => stack.push(V::I64(v as u64)),
            Instr::Const(Val::I32(v)) => stack.push(V::I32(v as u32)),
            Instr::Unary(UnaryOp::I64ExtendI32U) => match stack.pop() {
                Some(V::I32(x)) => stack.push(V::I64(x as u64)),
                _ => panic!("bad operand"),
            },
            Instr::Binary(op) => {
                let (b, a) = match (stack.pop(), stack.pop()) {
                    (Some(V::I64(b)), Some(V::I64(a))) => (b, a),
                    _ => panic!("bad operands"),
                };
                stack.push(match op {
                    BinaryOp::I64Add => V::I64(a.wrapping_add(b)),
                    BinaryOp::I64LeU => V::I32((a <= b) as u32),
                    BinaryOp::I64GeU => V::I32((a >= b) as u32),
                    BinaryOp::I32Xor => panic!("unexpected"),
                });
            }
            Instr::BrIf(0) => match stack.pop() {
                Some(V::I32(c)) => {
                    if c != 0 {
                        while body[pc] != Instr::End {
                            pc += 1;
                        }
                    }
                }
                _ => panic!("bad condition"),
            },
            Instr::Unreachable => return Err(()),
            Instr::Store(op, m) => {
                let v = match stack.pop() {
                    Some(V::I64(v)) => v,
                    Some(V::I32(v)) => v as u64,
                    None => panic!("no value"),
                };
                let a = match stack.pop() {
                    Some(V::I32(a)) => a as usize + m.offset as usize,
                    _ => panic!("no address"),
                };
                let w = width_of(op) as usize;
                if a + w <= mem.len() {
                    mem[a..a + w].copy_from_slice(&v.to_le_bytes()[..w]);
                }
            }
            other => panic!("unexpected instruction {:?}", other),
        }
        pc += 1;
    }
    panic!("fell off the end")
}

#[test]
fn store_into_protected_range_traps_and_outside_stores() {
    let mut m = Module { functions: vec![func(store_at(100, StoreOp::I32Store, 0))], memories: vec![], start: None };
    assert_eq!(write_protect_range(&mut m, 96, 104), Ok(1));
    assert_eq!(m.functions.len(), 2);
    assert_eq!(m.functions[0].code.as_ref().unwrap()[2], Instr::Call(1));
    let guard = m.functions[1].code.clone().unwrap();
    assert_eq!(m.functions[1].type_.params, vec![ValType::I32, ValType::I32]);
    assert!(run_guard(&guard, 100, 0x0102_0304, vec![0; 128]).is_err());
    let mem = run_guard(&guard, 90, 0x0102_0304, vec![0; 128]).unwrap();
    assert_eq!(&mem[90..94], &[4, 3, 2, 1]);
    assert_eq!(mem.iter().filter(|b| **b != 0).count(), 4);
}

#[test]
fn guards_trap_exactly_on_overlapping_writes() {
    let (start, end) = (96u32, 104u32);
    let ops = [StoreOp::I32Store8, StoreOp::I32Store16, StoreOp::I32Store, StoreOp::I64Store, StoreOp::I64Store32];
    for op in ops {
        for offset in [0u32, 3] {
            let guard = guard_function(start, end, op, memarg(offset)).code.unwrap();
            let w = width_of(op);
            for addr in (start - 4 - offset)..=(end + 4) {
                let eff = addr + offset;
                let overlaps = eff < end && start < eff + w;
                let result = run_guard(&guard, addr, u64::MAX, vec![0; 256]);
                assert_eq!(result.is_err(), overlaps, "{:?} offset {} address {}", op, offset, addr);
                if let Ok(mem) = result {
                    assert!(mem[eff as usize..(eff + w) as usize].iter().all(|b| *b == 0xff));
                }
            }
        }
    }
}

#[test]
fn guard_does_not_wrap_at_top_of_address_space() {
    // the span [2^32 - 4, 2^32 + 4) would wrap to [.., 4) in 32 bits; it lies above [0, 16)
    let guard = guard_function(0, 16, StoreOp::I64Store, memarg(0)).code.unwrap();
    assert!(run_guard(&guard, u32::MAX - 3, 0, vec![]).is_ok());
    assert!(run_guard(&guard, 12, 0, vec![0; 32]).is_err());
}

#[test]
fn one_guard_per_store_shape() {
    let body = vec![
        Instr::Const(Val::I32(0)), Instr::Const(Val::I32(1)), Instr::Store(StoreOp::I32Store, memarg(0)),
        Instr::Const(Val::I32(8)), Instr::Const(Val::I32(1)), Instr::Store(StoreOp::I32Store8, memarg(0)),
        Instr::Const(Val::I32(4)), Instr::Const(Val::I32(1)), Instr::Store(StoreOp::I32Store, memarg(0)),
        Instr::Const(Val::I32(4)), Instr::Const(Val::I32(1)), Instr::Store(StoreOp::I32Store, memarg(4)),
        Instr::End,
    ];
    let mut m = Module { functions: vec![func(body.clone()), func(body)], memories: vec![], start: None };
    assert_eq!(write_protect_range(&mut m, 0, 16), Ok(8));
    assert_eq!(m.functions.len(), 5);
    let patched = m.functions[0].code.clone().unwrap();
    assert_eq!(patched[2], Instr::Call(2));
    assert_eq!(patched[5], Instr::Call(3));
    assert_eq!(patched[8], Instr::Call(2));
    assert_eq!(patched[11], Instr::Call(4));
    assert_eq!(m.functions[1].code, m.functions[0].code);
    assert_eq!(m.functions[4].code.as_ref().unwrap()[19], Instr::Store(StoreOp::I32Store, memarg(4)));
}

#[test]
fn functions_reachable_from_start_are_not_guarded() {
    // 0: start, calls 1; 1: stores, calls 2 and itself; 2: stores; 3: stores, not reachable
    let f0 = vec![Instr::Call(1), Instr::End];
    let mut f1 = store_at(200, StoreOp::I32Store, 0);
    f1.insert(0, Instr::Call(2));
    f1.insert(0, Instr::Call(1));
    let f2 = store_at(204, StoreOp::I32Store, 0);
    let f3 = store_at(208, StoreOp::I32Store, 0);
    let mut m = Module {
        functions: vec![func(f0), func(f1.clone()), func(f2.clone()), func(f3)],
        memories: vec![],
        start: Some(0),
    };
    assert_eq!(whitelisted_functions(&m).items, vec![0, 1, 2]);
    assert_eq!(write_protect_range(&mut m, 200, 212), Ok(1));
    assert_eq!(m.functions[1].code.clone().unwrap(), f1);
    assert_eq!(m.functions[2].code.clone().unwrap(), f2);
    assert_eq!(m.functions[3].code.as_ref().unwrap()[2], Instr::Call(4));
}

#[test]
fn no_start_function_means_no_whitelist() {
    let m = Module { functions: vec![func(vec![Instr::Call(0), Instr::End])], memories: vec![], start: None };
    assert!(whitelisted_functions(&m).items.is_empty());
}

#[test]
fn monitor_logs_full_width_stores() {
    let mut body = store_at(16, StoreOp::I64Store, 0);
    body.splice(0..0, store_at(8, StoreOp::I32Store8, 0)[..3].to_vec());
    let mut m = Module { functions: vec![func(body)], memories: vec![], start: None };
    monitor_test(&mut m);
    assert_eq!(m.functions.len(), 2);
    assert_eq!(m.functions[1].type_.params, vec![ValType::I32, ValType::I32, ValType::I32]);
    let code = m.functions[0].code.clone().unwrap();
    assert_eq!(
        &code[5..10],
        &[
            Instr::Const(Val::I32(0)),
            Instr::Const(Val::I32(5)),
            Instr::LocalGet(0),
            Instr::Call(1),
            Instr::Store(StoreOp::I64Store, memarg(0)),
        ]
    );
    assert_eq!(code.len(), 11);
}

#[test]
fn io_err_carries_message() {
    let e = io_err("invalid input file, has no filename");
    assert_eq!(e.kind(), std::io::ErrorKind::InvalidInput);
    assert_eq!(e.to_string(), "invalid input file, has no filename");
}
