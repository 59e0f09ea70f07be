//! The instrumentations a run can apply.
use vstd::prelude::*;

verus! {

/// High-level hook names. `PointerHardening`, `WriteProtection` and `StoreUsage` select the
/// hardening passes; the others name the low-level hooks of the instrumentation framework.
#[derive(Clone, Copy, Debug, PartialEq, Eq, Structural, Hash)]
pub enum Hook {
    Start,
    Nop,
    Unreachable,
    Br,
    BrIf,
    BrTable,
    If,
    Begin,
    End,
    Call,
    PointerHardening,
    Return,
    Drop,
    Select,
    Const,
    Unary,
    Binary,
    Load,
    Store,
    WriteProtection,
    StoreUsage,
    MemorySize,
    MemoryGrow,
    Local,
    Global,
}

} // verus!
