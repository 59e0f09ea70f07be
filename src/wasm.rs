//! The in-memory model of a WebAssembly module that the hardening passes read and rewrite.
//!
//! Only the instructions that the passes match on or generate have their own variants;
//! every other instruction is `Instr::Other`, an opaque handle that the passes carry
//! through unchanged and that the code around the library maps back to the real instruction.
use vstd::prelude::*;

verus! {

/// A value type of WebAssembly.
#[derive(Clone, Copy, Debug, PartialEq, Eq, Structural)]
pub enum ValType {
    I32,
    I64,
    F32,
    F64,
}

/// An integer constant.
#[derive(Clone, Copy, Debug, PartialEq, Eq, Structural)]
pub enum Val {
    I32(i32),
    I64(i64),
}

/// The static part of a memory access: alignment hint and offset added to the dynamic address.
#[derive(Clone, Copy, Debug, PartialEq, Eq, Structural)]
pub struct Memarg {
    pub alignment_exp: u8,
    pub offset: u32,
}

#[derive(Clone, Copy, Debug, PartialEq, Eq, Structural)]
pub enum LoadOp {
    I32Load,
    I64Load,
    F32Load,
    F64Load,
    I32Load8S,
    I32Load8U,
    I32Load16S,
    I32Load16U,
    I64Load8S,
    I64Load8U,
    I64Load16S,
    I64Load16U,
    I64Load32S,
    I64Load32U,
}

#[derive(Clone, Copy, Debug, PartialEq, Eq, Structural)]
pub enum StoreOp {
    I32Store,
    I64Store,
    F32Store,
    F64Store,
    I32Store8,
    I32Store16,
    I64Store8,
    I64Store16,
    I64Store32,
}

#[derive(Clone, Copy, Debug, PartialEq, Eq, Structural)]
pub enum UnaryOp {
    I64ExtendI32U,
}

#[derive(Clone, Copy, Debug, PartialEq, Eq, Structural)]
pub enum BinaryOp {
    I32Xor,
    I64Add,
    I64LeU,
    I64GeU,
}

/// An instruction. `Block` opens a block without parameters or results.
#[derive(Clone, Copy, Debug, PartialEq, Eq, Structural)]
pub enum Instr {
    Unreachable,
    Block,
    End,
    BrIf(u32),
    Drop,
    Select,
    LocalGet(u32),
    LocalSet(u32),
    LocalTee(u32),
    Const(Val),
    Unary(UnaryOp),
    Binary(BinaryOp),
    Load(LoadOp, Memarg),
    Store(StoreOp, Memarg),
    Call(u32),
    /// Indirect call through a table: type index and table index.
    CallIndirect(u32, u32),
    /// Any other instruction, passed through unchanged.
    Other(u32),
}

#[derive(Clone, Debug)]
pub struct FunctionType {
    pub params: Vec<ValType>,
    pub results: Vec<ValType>,
}

/// A function: its signature, its extra locals, and its body, absent for an imported function.
#[derive(Clone, Debug)]
pub struct Function {
    pub type_: FunctionType,
    pub locals: Vec<ValType>,
    pub code: Option<Vec<Instr>>,
}

/// A data segment: the bytes placed in linear memory at `offset` when the module is instantiated.
/// Trailing zero bytes may have been stripped from `bytes`.
#[derive(Clone, Debug)]
pub struct DataSegment {
    pub offset: u32,
    pub bytes: Vec<u8>,
}

#[derive(Clone, Debug)]
pub struct Memory {
    pub data: Vec<DataSegment>,
}

#[derive(Clone, Debug)]
pub struct Module {
    pub functions: Vec<Function>,
    pub memories: Vec<Memory>,
    pub start: Option<u32>,
}

/// The most functions a module can hold: function indices are 32-bit.
pub const MAX_FUNCTIONS: usize = 0xffff_ffff;

impl Function {
    /// The body as a sequence, empty for a function without code.
    pub open spec fn body(self) -> Seq<Instr> {
        match self.code {
            Some(c) => c@,
            None => Seq::empty(),
        }
    }

    pub fn new(params: Vec<ValType>, results: Vec<ValType>, locals: Vec<ValType>, body: Vec<Instr>) -> (r: Function)
        ensures
            r.type_.params@ == params@,
            r.type_.results@ == results@,
            r.locals@ == locals@,
            r.code == Some(body),
    {
        Function { type_: FunctionType { params, results }, locals, code: Some(body) }
    }
}

/// A data segment as plain values: its offset and its stored bytes.
pub type SegmentView = (u32, Seq<u8>);

/// The data segments of every memory, memory by memory.
pub type DataView = Seq<Seq<SegmentView>>;

pub open spec fn segment_view(s: DataSegment) -> SegmentView {
    (s.offset, s.bytes@)
}

pub open spec fn memory_view(m: Memory) -> Seq<SegmentView> {
    Seq::new(m.data@.len(), |j: int| segment_view(m.data@[j]))
}

pub open spec fn data_view(m: Module) -> DataView {
    Seq::new(m.memories@.len(), |i: int| memory_view(m.memories@[i]))
}

/// The two functions have the same signature, locals and body.
pub open spec fn same_function(x: Function, y: Function) -> bool {
    &&& x.type_.params@ == y.type_.params@
    &&& x.type_.results@ == y.type_.results@
    &&& x.locals@ == y.locals@
    &&& (x.code is Some <==> y.code is Some)
    &&& x.body() == y.body()
}

/// The two modules have the same functions, the same data segments and the same start
/// function: they serialize to the same bytes.
pub open spec fn same_module(a: Module, b: Module) -> bool {
    &&& a.functions@.len() == b.functions@.len()
    &&& forall|f: int| 0 <= f < a.functions@.len() ==> same_function(#[trigger] a.functions@[f], b.functions@[f])
    &&& data_view(a) == data_view(b)
    &&& a.start == b.start
}

impl Module {
    /// Appends a function and returns its index.
    pub fn add_function(&mut self, f: Function) -> (idx: u32)
        requires
            old(self).functions.len() < MAX_FUNCTIONS,
        ensures
            idx == old(self).functions.len(),
            final(self).functions@ == old(self).functions@.push(f),
            final(self).memories == old(self).memories,
            final(self).start == old(self).start,
    {
        let idx = self.functions.len() as u32;
        self.functions.push(f);
        idx
    }
}

} // verus!
