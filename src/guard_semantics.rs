//! What a function body does when run: a small semantics of the instructions the guards are
//! made of, and the proof that a guard traps exactly on the writes that touch its range.
use vstd::prelude::*;
use crate::wasm::{BinaryOp, Instr, Memarg, StoreOp, UnaryOp, Val};
use crate::write_protection::{guard_body, store_width};

verus! {

/// A runtime value: the bits of a 32- or 64-bit value.
pub enum Value {
    I32(u32),
    I64(u64),
}

/// A store performed: effective address, width in bytes, value.
pub type Write = (int, nat, Value);

/// How a run ends: on a trap, returning after the writes it made, or on an instruction
/// outside this semantics or a malformed stack.
pub enum Outcome {
    Trapped,
    Returned(Seq<Write>),
    Stuck,
}

/// The index of the `end` that closes the block open at `k`, `depth` blocks deep.
pub open spec fn block_end(body: Seq<Instr>, k: int, depth: nat) -> int
    decreases body.len() - k,
{
    if k < 0 || k >= body.len() {
        body.len() as int
    } else {
        match body[k] {
            Instr::Block => block_end(body, k + 1, depth + 1),
            Instr::End => if depth == 0 { k } else { block_end(body, k + 1, (depth - 1) as nat) },
            _ => block_end(body, k + 1, depth),
        }
    }
}

pub open spec fn binary(op: BinaryOp, a: Value, b: Value) -> Option<Value> {
    match (op, a, b) {
        (BinaryOp::I32Xor, Value::I32(x), Value::I32(y)) => Some(Value::I32(x ^ y)),
        (BinaryOp::I64Add, Value::I64(x), Value::I64(y)) => Some(Value::I64(((x + y) % 0x1_0000_0000_0000_0000) as u64)),
        (BinaryOp::I64LeU, Value::I64(x), Value::I64(y)) => Some(Value::I32(if x <= y { 1 } else { 0 })),
        (BinaryOp::I64GeU, Value::I64(x), Value::I64(y)) => Some(Value::I32(if x >= y { 1 } else { 0 })),
        _ => None,
    }
}

/// Runs the body from instruction `pc` with the given operand stack and writes so far.
/// The `end` at the last index returns from the function.
pub open spec fn run(body: Seq<Instr>, locals: Seq<Value>, pc: int, stack: Seq<Value>, writes: Seq<Write>) -> Outcome
    decreases body.len() - pc,
{
    if pc < 0 || pc >= body.len() {
        Outcome::Stuck
    } else {
        let next = pc + 1;
        match body[pc] {
            Instr::Unreachable => Outcome::Trapped,
            Instr::Block => run(body, locals, next, stack, writes),
            Instr::End => if pc == body.len() - 1 {
                Outcome::Returned(writes)
            } else {
                run(body, locals, next, stack, writes)
            },
            Instr::BrIf(0) => if stack.len() >= 1 {
                match stack.last() {
                    Value::I32(c) => if c != 0 {
                        let e = block_end(body, next, 0);
                        if pc < e < body.len() - 1 {
                            run(body, locals, e + 1, stack.drop_last(), writes)
                        } else {
                            Outcome::Stuck
                        }
                    } else {
                        run(body, locals, next, stack.drop_last(), writes)
                    },
                    _ => Outcome::Stuck,
                }
            } else {
                Outcome::Stuck
            },
            Instr::LocalGet(i) => if i < locals.len() {
                run(body, locals, next, stack.push(locals[i as int]), writes)
            } else {
                Outcome::Stuck
            },
            Instr::Const(Val::I32(v)) => run(body, locals, next, stack.push(Value::I32(v as u32)), writes),
            Instr::Const(Val::I64(v)) => run(body, locals, next, stack.push(Value::I64(v as u64)), writes),
            Instr::Unary(UnaryOp::I64ExtendI32U) => if stack.len() >= 1 {
                match stack.last() {
                    Value::I32(x) => run(body, locals, next, stack.drop_last().push(Value::I64(x as u64)), writes),
                    _ => Outcome::Stuck,
                }
            } else {
                Outcome::Stuck
            },
            Instr::Binary(op) => if stack.len() >= 2 {
                match binary(op, stack[stack.len() - 2], stack.last()) {
                    Some(r) => run(body, locals, next, stack.drop_last().drop_last().push(r), writes),
                    None => Outcome::Stuck,
                }
            } else {
                Outcome::Stuck
            },
            Instr::Store(op, m) => if stack.len() >= 2 {
                match stack[stack.len() - 2] {
                    Value::I32(a) => run(body, locals, next, stack.drop_last().drop_last(),
                        writes.push((a + m.offset, store_width(op), stack.last()))),
                    _ => Outcome::Stuck,
                }
            } else {
                Outcome::Stuck
            },
            _ => Outcome::Stuck,
        }
    }
}

/// The write `[a, a + w)` touches `[start, end)`.
pub open spec fn overlaps(a: int, w: int, start: int, end: int) -> bool {
    a < end && start < a + w
}

/// Write-protection soundness: called with an address and a value, the guard for a store shape
/// traps exactly when the bytes the store would write, `[address + offset, address + offset + width)`,
/// meet `[start, end)`; otherwise it performs that one store and returns.
pub proof fn lemma_guard_soundness(start: u32, end: u32, op: StoreOp, memarg: Memarg, address: u32, value: Value)
    ensures
        run(guard_body(start, end, (op, memarg)), seq![Value::I32(address), value], 0, Seq::empty(), Seq::empty())
            == if overlaps(address + memarg.offset, store_width(op) as int, start as int, end as int) {
                Outcome::Trapped
            } else {
                Outcome::Returned(seq![((address + memarg.offset) as int, store_width(op), value)])
            },
{
    let body = guard_body(start, end, (op, memarg));
    reveal_with_fuel(block_end, 10);
    reveal_with_fuel(run, 22);
    assert(block_end(body, 8, 0) == 16);
    assert(block_end(body, 15, 0) == 16);
}

} // verus!
