//! Experimental store monitoring: each 32- or 64-bit store first reports the function
//! index, the instruction index and local 0 to a logging function that calls the host's
//! print function (function 0).
use vstd::prelude::*;
use crate::wasm::{Function, Instr, Module, StoreOp, Val, ValType, MAX_FUNCTIONS};

verus! {

/// The body of the logging function: each of its three arguments goes to function 0.
pub open spec fn logging_body() -> Seq<Instr> {
    seq![
        Instr::LocalGet(0),
        Instr::Call(0),
        Instr::LocalGet(1),
        Instr::Call(0),
        Instr::LocalGet(2),
        Instr::Call(0),
        Instr::End,
    ]
}

/// Adds the logging function, of type `(i32, i32, i32) -> ()`, and returns its index.
pub fn add_logging_function(module: &mut Module) -> (idx: u32)
    requires
        old(module).functions@.len() < MAX_FUNCTIONS,
    ensures
        idx == old(module).functions@.len(),
        final(module).functions@.len() == old(module).functions@.len() + 1,
        forall|f: int| 0 <= f < idx ==> #[trigger] final(module).functions@[f] == old(module).functions@[f],
        final(module).functions@[idx as int].type_.params@ == seq![ValType::I32, ValType::I32, ValType::I32],
        final(module).functions@[idx as int].type_.results@.len() == 0,
        final(module).functions@[idx as int].locals@ == seq![ValType::I32, ValType::I32, ValType::I32],
        final(module).functions@[idx as int].code is Some,
        final(module).functions@[idx as int].body() == logging_body(),
        final(module).memories == old(module).memories,
        final(module).start == old(module).start,
{
    let body = vec![
        Instr::LocalGet(0),
        Instr::Call(0),
        Instr::LocalGet(1),
        Instr::Call(0),
        Instr::LocalGet(2),
        Instr::Call(0),
        Instr::End,
    ];
    let f = Function::new(
        vec![ValType::I32, ValType::I32, ValType::I32],
        Vec::new(),
        vec![ValType::I32, ValType::I32, ValType::I32],
        body,
    );
    assert(f.body() =~= logging_body());
    assert(f.type_.params@ =~= seq![ValType::I32, ValType::I32, ValType::I32]);
    assert(f.locals@ =~= seq![ValType::I32, ValType::I32, ValType::I32]);
    module.add_function(f)
}

/// A full-width store: the ones that get logged.
pub open spec fn is_logged_store(i: Instr) -> bool {
    i matches Instr::Store(op, _) && (op is I32Store || op is I64Store || op is F32Store || op is F64Store)
}

/// The first `n` instructions of the body of function `f`, each logged store preceded by the
/// call that reports it.
pub open spec fn monitored_prefix(body: Seq<Instr>, f: u32, log: u32, n: int) -> Seq<Instr>
    decreases n,
{
    if n <= 0 {
        Seq::empty()
    } else if is_logged_store(body[n - 1]) {
        monitored_prefix(body, f, log, n - 1) + seq![
            Instr::Const(Val::I32(f as i32)),
            Instr::Const(Val::I32((n - 1) as i32)),
            Instr::LocalGet(0),
            Instr::Call(log),
            body[n - 1],
        ]
    } else {
        monitored_prefix(body, f, log, n - 1).push(body[n - 1])
    }
}

pub open spec fn monitored_body(body: Seq<Instr>, f: u32, log: u32) -> Seq<Instr> {
    monitored_prefix(body, f, log, body.len() as int)
}

fn monitor_body(body: &Vec<Instr>, f: u32, log: u32) -> (r: Vec<Instr>)
    ensures
        r@ == monitored_body(body@, f, log),
{
    let mut out: Vec<Instr> = Vec::new();
    let mut i: usize = 0;
    while i < body.len()
        invariant
            i <= body.len(),
            out@ == monitored_prefix(body@, f, log, i as int),
        decreases body.len() - i,
    {
        let instr = body[i];
        let logged = match instr {
            Instr::Store(StoreOp::I32Store, _) | Instr::Store(StoreOp::I64Store, _)
            | Instr::Store(StoreOp::F32Store, _) | Instr::Store(StoreOp::F64Store, _) => true,
            _ => false,
        };
        if logged {
            out.push(Instr::Const(Val::I32(f as i32)));
            out.push(Instr::Const(Val::I32(i as i32)));
            out.push(Instr::LocalGet(0));
            out.push(Instr::Call(log));
        }
        out.push(instr);
        assert(out@ =~= monitored_prefix(body@, f, log, i + 1));
        i = i + 1;
    }
    out
}

/// Adds the logging function and reports every full-width store of every function through it.
pub fn monitor_test(module: &mut Module)
    requires
        old(module).functions@.len() < MAX_FUNCTIONS,
    ensures
        final(module).functions@.len() == old(module).functions@.len() + 1,
        forall|f: int| 0 <= f < old(module).functions@.len() ==> {
            let o = #[trigger] old(module).functions@[f];
            let w = final(module).functions@[f];
            &&& w.type_ == o.type_
            &&& w.locals == o.locals
            &&& w.code is Some <==> o.code is Some
            &&& w.body() == monitored_body(o.body(), f as u32, old(module).functions@.len() as u32)
        },
        final(module).functions@[old(module).functions@.len() as int].type_.params@
            == seq![ValType::I32, ValType::I32, ValType::I32],
        final(module).functions@[old(module).functions@.len() as int].type_.results@.len() == 0,
        final(module).functions@[old(module).functions@.len() as int].locals@
            == seq![ValType::I32, ValType::I32, ValType::I32],
        final(module).functions@[old(module).functions@.len() as int].code is Some,
        final(module).functions@[old(module).functions@.len() as int].body()
            == monitored_body(logging_body(), old(module).functions@.len() as u32, old(module).functions@.len() as u32),
        final(module).memories == old(module).memories,
        final(module).start == old(module).start,
{
    let ghost orig = *module;
    let log = add_logging_function(module);
    let ghost added = module.functions@[log as int];
    let n = module.functions.len();
    let mut f: usize = 0;
    while f < n
        invariant
            n == orig.functions@.len() + 1,
            n <= MAX_FUNCTIONS,
            log == orig.functions@.len(),
            f <= n,
            module.functions@.len() == n,
            module.memories == orig.memories,
            module.start == orig.start,
            added.type_.params@ == seq![ValType::I32, ValType::I32, ValType::I32],
            added.type_.results@.len() == 0,
            added.locals@ == seq![ValType::I32, ValType::I32, ValType::I32],
            added.code is Some,
            added.body() == logging_body(),
            forall|g: int| f <= g < log ==> #[trigger] module.functions@[g] == orig.functions@[g],
            f <= log ==> module.functions@[log as int] == added,
            f > log ==> module.functions@[log as int].type_ == added.type_,
            f > log ==> module.functions@[log as int].locals == added.locals,
            f > log ==> module.functions@[log as int].code is Some,
            f > log ==> module.functions@[log as int].body() == monitored_body(logging_body(), log, log),
            forall|g: int| 0 <= g < f && g < log ==> {
                let o = #[trigger] orig.functions@[g];
                let w = module.functions@[g];
                &&& w.type_ == o.type_
                &&& w.locals == o.locals
                &&& w.code is Some <==> o.code is Some
                &&& w.body() == monitored_body(o.body(), g as u32, log)
            },
        decreases n - f,
    {
        let rewritten = match &module.functions[f].code {
            Some(body) => Some(monitor_body(body, f as u32, log)),
            None => None,
        };
        if let Some(body) = rewritten {
            module.functions[f].code = Some(body);
        }
        f = f + 1;
    }
}

} // verus!
