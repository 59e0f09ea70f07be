//! Write protection of a linear-memory range: every store outside the functions reachable
//! from start becomes a call to a guard that traps when the write would touch the range.
use vstd::prelude::*;
use crate::address_set::AddressSet;
use crate::encryption::saturated;
use crate::whitelist::{call_closed, calls, reachable_from_start, whitelisted_functions};
use crate::wasm::{data_view, same_function, same_module, BinaryOp, Function, Instr, Memarg, Module, StoreOp, UnaryOp, Val, ValType, MAX_FUNCTIONS};

verus! {

/// What identifies a guard: the store's opcode and its memory argument.
pub type StoreShape = (StoreOp, Memarg);

pub open spec fn store_shape(i: Instr) -> Option<StoreShape> {
    match i {
        Instr::Store(op, m) => Some((op, m)),
        _ => None,
    }
}

/// The number of bytes the store writes.
pub open spec fn store_width(op: StoreOp) -> nat {
    match op {
        StoreOp::I32Store8 | StoreOp::I64Store8 => 1,
        StoreOp::I32Store16 | StoreOp::I64Store16 => 2,
        StoreOp::I32Store | StoreOp::F32Store | StoreOp::I64Store32 => 4,
        StoreOp::I64Store | StoreOp::F64Store => 8,
    }
}

/// The type of the value the store takes.
pub open spec fn store_value_type(op: StoreOp) -> ValType {
    match op {
        StoreOp::I32Store | StoreOp::I32Store8 | StoreOp::I32Store16 => ValType::I32,
        StoreOp::I64Store | StoreOp::I64Store8 | StoreOp::I64Store16 | StoreOp::I64Store32 => ValType::I64,
        StoreOp::F32Store => ValType::F32,
        StoreOp::F64Store => ValType::F64,
    }
}

pub fn width_of(op: StoreOp) -> (w: u32)
    ensures
        w == store_width(op),
{
    match op {
        StoreOp::I32Store8 | StoreOp::I64Store8 => 1,
        StoreOp::I32Store16 | StoreOp::I64Store16 => 2,
        StoreOp::I32Store | StoreOp::F32Store | StoreOp::I64Store32 => 4,
        StoreOp::I64Store | StoreOp::F64Store => 8,
    }
}

pub fn value_type_of(op: StoreOp) -> (t: ValType)
    ensures
        t == store_value_type(op),
{
    match op {
        StoreOp::I32Store | StoreOp::I32Store8 | StoreOp::I32Store16 => ValType::I32,
        StoreOp::I64Store | StoreOp::I64Store8 | StoreOp::I64Store16 | StoreOp::I64Store32 => ValType::I64,
        StoreOp::F32Store => ValType::F32,
        StoreOp::F64Store => ValType::F64,
    }
}

/// The body of the guard for stores of shape `sh` protecting `[start, end)`. With the address
/// in local 0 and the value in local 1, it computes the written span `[a + offset, a + offset + width)`
/// in 64 bits, so nothing wraps; it returns after the store when the span ends at or before
/// `start` or begins at or after `end`, and traps otherwise.
pub open spec fn guard_body(start: u32, end: u32, sh: StoreShape) -> Seq<Instr> {
    seq![
        Instr::Block,
        Instr::LocalGet(0),
        Instr::Unary(UnaryOp::I64ExtendI32U),
        Instr::Const(Val::I64((sh.1.offset + store_width(sh.0)) as i64)),
        Instr::Binary(BinaryOp::I64Add),
        Instr::Const(Val::I64(start as i64)),
        Instr::Binary(BinaryOp::I64LeU),
        Instr::BrIf(0),
        Instr::LocalGet(0),
        Instr::Unary(UnaryOp::I64ExtendI32U),
        Instr::Const(Val::I64(sh.1.offset as i64)),
        Instr::Binary(BinaryOp::I64Add),
        Instr::Const(Val::I64(end as i64)),
        Instr::Binary(BinaryOp::I64GeU),
        Instr::BrIf(0),
        Instr::Unreachable,
        Instr::End,
        Instr::LocalGet(0),
        Instr::LocalGet(1),
        Instr::Store(sh.0, sh.1),
        Instr::End,
    ]
}

/// `g` is the guard for stores of shape `sh`: it takes the address and the value and returns nothing.
pub open spec fn is_guard(g: Function, start: u32, end: u32, sh: StoreShape) -> bool {
    &&& g.type_.params@ == seq![ValType::I32, store_value_type(sh.0)]
    &&& g.type_.results@.len() == 0
    &&& g.locals@.len() == 0
    &&& g.code is Some
    &&& g.body() == guard_body(start, end, sh)
}

pub fn guard_function(start: u32, end: u32, op: StoreOp, memarg: Memarg) -> (g: Function)
    ensures
        is_guard(g, start, end, (op, memarg)),
{
    let width = width_of(op);
    let span_end: i64 = memarg.offset as i64 + width as i64;
    let body = vec![
        Instr::Block,
        Instr::LocalGet(0),
        Instr::Unary(UnaryOp::I64ExtendI32U),
        Instr::Const(Val::I64(span_end)),
        Instr::Binary(BinaryOp::I64Add),
        Instr::Const(Val::I64(start as i64)),
        Instr::Binary(BinaryOp::I64LeU),
        Instr::BrIf(0),
        Instr::LocalGet(0),
        Instr::Unary(UnaryOp::I64ExtendI32U),
        Instr::Const(Val::I64(memarg.offset as i64)),
        Instr::Binary(BinaryOp::I64Add),
        Instr::Const(Val::I64(end as i64)),
        Instr::Binary(BinaryOp::I64GeU),
        Instr::BrIf(0),
        Instr::Unreachable,
        Instr::End,
        Instr::LocalGet(0),
        Instr::LocalGet(1),
        Instr::Store(op, memarg),
        Instr::End,
    ];
    let g = Function::new(vec![ValType::I32, value_type_of(op)], Vec::new(), Vec::new(), body);
    assert(g.body() =~= guard_body(start, end, (op, memarg)));
    assert(g.type_.params@ =~= seq![ValType::I32, store_value_type(op)]);
    g
}

/// The body that write protection rewrites: empty for a function reachable from start.
pub open spec fn protected_body(m: Module, f: int) -> Seq<Instr> {
    if reachable_from_start(m, f as u32) {
        Seq::empty()
    } else {
        m.functions@[f].body()
    }
}

/// The shapes of the stores among the first `i` instructions of `b`, in order.
pub open spec fn stores_of(b: Seq<Instr>, i: int) -> Seq<StoreShape>
    decreases i,
{
    if i <= 0 || i > b.len() {
        Seq::empty()
    } else {
        match store_shape(b[i - 1]) {
            Some(sh) => stores_of(b, i - 1).push(sh),
            None => stores_of(b, i - 1),
        }
    }
}

/// The shapes of the stores to protect in the functions before `f`, in order.
pub open spec fn stores_upto(m: Module, f: int) -> Seq<StoreShape>
    decreases f,
{
    if f <= 0 {
        Seq::empty()
    } else {
        let b = protected_body(m, f - 1);
        stores_upto(m, f - 1) + stores_of(b, b.len() as int)
    }
}

/// The sequence without repetitions, each element where it first occurs.
pub open spec fn dedup(s: Seq<StoreShape>) -> Seq<StoreShape>
    decreases s.len(),
{
    if s.len() == 0 {
        s
    } else {
        let d = dedup(s.drop_last());
        if d.contains(s.last()) {
            d
        } else {
            d.push(s.last())
        }
    }
}

/// The shapes that get a guard, in order of first occurrence: guard `j` is function
/// `n + j` of the protected module, `n` the number of functions before.
pub open spec fn guard_shapes(m: Module) -> Seq<StoreShape> {
    dedup(stores_upto(m, m.functions@.len() as int))
}

proof fn lemma_dedup(s: Seq<StoreShape>)
    ensures
        forall|x: StoreShape| s.contains(x) <==> #[trigger] dedup(s).contains(x),
        forall|i: int, j: int| 0 <= i < j < dedup(s).len() ==> dedup(s)[i] != dedup(s)[j],
    decreases s.len(),
{
    if s.len() > 0 {
        lemma_dedup(s.drop_last());
        let d = dedup(s.drop_last());
        assert forall|x: StoreShape| s.contains(x) <==> #[trigger] dedup(s).contains(x) by {
            if d.contains(x) {
                let k = choose|k: int| 0 <= k < d.len() && d[k] == x;
                assert(dedup(s)[k] == x);
                assert(s.drop_last().contains(x));
                let q = choose|q: int| 0 <= q < s.drop_last().len() && s.drop_last()[q] == x;
                assert(s[q] == x);
            }
            if x == s.last() {
                assert(s[s.len() - 1] == x);
                if !d.contains(x) {
                    assert(dedup(s)[d.len() as int] == x);
                }
            }
            if s.contains(x) {
                let k = choose|k: int| 0 <= k < s.len() && s[k] == x;
                if k < s.len() - 1 {
                    assert(s.drop_last()[k] == x);
                }
            }
            if dedup(s).contains(x) && !d.contains(x) {
                let k = choose|k: int| 0 <= k < dedup(s).len() && dedup(s)[k] == x;
                assert(x == s.last());
            }
        }
    }
}

/// `b2` is `b` with every store replaced by a call to the guard for its shape.
pub open spec fn guarded(b: Seq<Instr>, b2: Seq<Instr>, n: int, shapes: Seq<StoreShape>) -> bool {
    &&& b2.len() == b.len()
    &&& forall|k: int| 0 <= k < b.len() ==> match store_shape(#[trigger] b[k]) {
        Some(sh) => b2[k] matches Instr::Call(g) && n <= g < n + shapes.len() && shapes[g - n] == sh,
        None => b2[k] == b[k],
    }
}

/// Collects the shapes of the stores to protect, in order of first occurrence.
fn collect_shapes(m: &Module, whitelist: &AddressSet) -> (r: Vec<StoreShape>)
    requires
        m.functions@.len() <= MAX_FUNCTIONS,
        whitelist.wf(),
        forall|f: u32| #[trigger] whitelist.view().contains(f) <==> reachable_from_start(*m, f),
    ensures
        r@ == guard_shapes(*m),
{
    let mut shapes: Vec<StoreShape> = Vec::new();
    let mut f: usize = 0;
    while f < m.functions.len()
        invariant
            f <= m.functions@.len() <= MAX_FUNCTIONS,
            whitelist.wf(),
            forall|f: u32| #[trigger] whitelist.view().contains(f) <==> reachable_from_start(*m, f),
            shapes@ == dedup(stores_upto(*m, f as int)),
        decreases m.functions.len() - f,
    {
        let ghost b = protected_body(*m, f as int);
        if !whitelist.contains(f as u32) {
            if let Some(body) = &m.functions[f].code {
                let mut i: usize = 0;
                while i < body.len()
                    invariant
                        i <= body.len(),
                        f < m.functions@.len(),
                        body@ == b,
                        shapes@ == dedup(stores_upto(*m, f as int) + stores_of(b, i as int)),
                    decreases body.len() - i,
                {
                    let ghost prev = stores_upto(*m, f as int) + stores_of(b, i as int);
                    if let Instr::Store(op, ma) = body[i] {
                        let mut found = false;
                        let mut j: usize = 0;
                        while j < shapes.len()
                            invariant
                                j <= shapes.len(),
                                found == exists|p: int| 0 <= p < j && shapes@[p] == (op, ma),
                            decreases shapes.len() - j,
                        {
                            if shapes[j].0 == op && shapes[j].1 == ma {
                                found = true;
                            }
                            j = j + 1;
                        }
                        assert(stores_upto(*m, f as int) + stores_of(b, i + 1) =~= prev.push((op, ma)));
                        assert(prev.push((op, ma)).drop_last() =~= prev);
                        if !found {
                            shapes.push((op, ma));
                        }
                    } else {
                        assert(stores_upto(*m, f as int) + stores_of(b, i + 1) =~= prev);
                    }
                    i = i + 1;
                }
                assert(stores_upto(*m, f + 1) == stores_upto(*m, f as int) + stores_of(b, b.len() as int));
            } else {
                assert(stores_upto(*m, f + 1) =~= stores_upto(*m, f as int));
            }
        } else {
            assert(stores_upto(*m, f + 1) =~= stores_upto(*m, f as int));
        }
        f = f + 1;
    }
    shapes
}

proof fn lemma_stores_of_contains(b: Seq<Instr>, i: int, k: int)
    requires
        0 <= k < i <= b.len(),
        store_shape(b[k]) is Some,
    ensures
        stores_of(b, i).contains(store_shape(b[k])->0),
    decreases i,
{
    if k < i - 1 {
        lemma_stores_of_contains(b, i - 1, k);
        let s = stores_of(b, i - 1);
        let p = choose|p: int| 0 <= p < s.len() && s[p] == store_shape(b[k])->0;
        if store_shape(b[i - 1]) is Some {
            assert(stores_of(b, i)[p] == s[p]);
        }
    } else {
        assert(stores_of(b, i).last() == store_shape(b[k])->0);
    }
}

proof fn lemma_stores_upto_contains(m: Module, f: int, k: int)
    requires
        0 <= f < m.functions@.len(),
        0 <= k < protected_body(m, f).len(),
        store_shape(protected_body(m, f)[k]) is Some,
    ensures
        guard_shapes(m).contains(store_shape(protected_body(m, f)[k])->0),
{
    let b = protected_body(m, f);
    let x = store_shape(b[k])->0;
    lemma_stores_of_contains(b, b.len() as int, k);
    let p = choose|p: int| 0 <= p < stores_of(b, b.len() as int).len() && stores_of(b, b.len() as int)[p] == x;
    assert(stores_upto(m, f + 1)[stores_upto(m, f).len() + p] == x);
    lemma_stores_upto_grows(m, f + 1, m.functions@.len() as int, x);
    lemma_dedup(stores_upto(m, m.functions@.len() as int));
}

proof fn lemma_stores_upto_grows(m: Module, f: int, g: int, x: StoreShape)
    requires
        0 <= f <= g,
        stores_upto(m, f).contains(x),
    ensures
        stores_upto(m, g).contains(x),
    decreases g - f,
{
    if f < g {
        lemma_stores_upto_grows(m, f, g - 1, x);
        let s = stores_upto(m, g - 1);
        let p = choose|p: int| 0 <= p < s.len() && s[p] == x;
        assert(stores_upto(m, g)[p] == x);
    }
}

/// The module has too many functions to index the guards it would need.
#[derive(Clone, Copy, Debug, PartialEq, Eq, Structural)]
pub enum ProtectError {
    TooManyFunctions,
}

/// `new` is `old` write-protected on `[start, end)`: the bodies of the functions outside the
/// whitelist call guards in place of stores, the whitelisted ones are untouched, and the
/// guards follow the functions that were there.
pub open spec fn write_protected(old: Module, new: Module, start: u32, end: u32) -> bool {
    let n = old.functions@.len() as int;
    let shapes = guard_shapes(old);
    &&& new.functions@.len() == n + shapes.len()
    &&& forall|f: int| 0 <= f < n ==> {
        let o = #[trigger] old.functions@[f];
        let w = new.functions@[f];
        if reachable_from_start(old, f as u32) || o.code is None {
            w == o
        } else {
            &&& w.type_ == o.type_
            &&& w.locals == o.locals
            &&& w.code is Some
            &&& guarded(o.body(), w.body(), n, shapes)
        }
    }
    &&& forall|j: int| 0 <= j < shapes.len() ==> is_guard(#[trigger] new.functions@[n + j], start, end, shapes[j])
    &&& new.memories == old.memories
    &&& new.start == old.start
}

/// The body with every store replaced by a call to its guard, and the number of stores.
fn guard_stores(body: &Vec<Instr>, n: usize, shapes: &Vec<StoreShape>) -> (r: (Vec<Instr>, usize))
    requires
        n + shapes@.len() <= MAX_FUNCTIONS,
        forall|k: int| 0 <= k < body@.len() && store_shape(#[trigger] body@[k]) is Some
            ==> shapes@.contains(store_shape(body@[k])->0),
    ensures
        guarded(body@, r.0@, n as int, shapes@),
        r.1 == stores_of(body@, body@.len() as int).len(),
{
    let mut out: Vec<Instr> = Vec::new();
    let mut i: usize = 0;
    let mut count: usize = 0;
    while i < body.len()
        invariant
            i <= body.len(),
            n + shapes@.len() <= MAX_FUNCTIONS,
            forall|k: int| 0 <= k < body@.len() && store_shape(#[trigger] body@[k]) is Some
                ==> shapes@.contains(store_shape(body@[k])->0),
            out@.len() == i,
            count == stores_of(body@, i as int).len(),
            count <= i,
            forall|k: int| 0 <= k < i ==> match store_shape(#[trigger] body@[k]) {
                Some(sh) => out@[k] matches Instr::Call(g) && n <= g < n + shapes@.len() && shapes@[g - n] == sh,
                None => out@[k] == body@[k],
            },
        decreases body.len() - i,
    {
        match body[i] {
            Instr::Store(op, ma) => {
                assert(store_shape(body@[i as int]) is Some);
                let mut j: usize = 0;
                while j < shapes.len() && !(shapes[j].0 == op && shapes[j].1 == ma)
                    invariant
                        j <= shapes@.len(),
                        shapes@.contains((op, ma)),
                        forall|p: int| 0 <= p < j ==> shapes@[p] != (op, ma),
                    decreases shapes.len() - j,
                {
                    j = j + 1;
                }
                assert(j < shapes@.len());
                out.push(Instr::Call((n + j) as u32));
                count = count + 1;
            },
            _ => {
                out.push(body[i]);
            },
        }
        i = i + 1;
    }
    proof {
        assert forall|k: int| 0 <= k < body@.len() implies match store_shape(#[trigger] body@[k]) {
            Some(sh) => out@[k] matches Instr::Call(g) && n <= g < n + shapes@.len() && shapes@[g - n] == sh,
            None => out@[k] == body@[k],
        } by {}
    }
    (out, count)
}

/// The number of stores to protect in the functions before `f`.
pub open spec fn protected_stores(m: Module) -> nat {
    stores_upto(m, m.functions@.len() as int).len()
}

/// Write-protects `[start_address, end_address)`: every store outside the functions reachable
/// from start is replaced by a call to the guard for its shape, one guard per shape. Returns
/// the number of stores replaced (saturated at `usize::MAX`); fails, changing nothing, when the
/// guards would take the module past the function-index space.
pub fn write_protect_range(module: &mut Module, start_address: u32, end_address: u32) -> (r: Result<usize, ProtectError>)
    requires
        start_address < end_address,
    ensures
        r is Err <==> old(module).functions@.len() + guard_shapes(*old(module)).len() > MAX_FUNCTIONS,
        match r {
            Ok(n) => write_protected(*old(module), *final(module), start_address, end_address)
                && n == saturated(protected_stores(*old(module))),
            Err(_) => *final(module) == *old(module),
        },
{
    if module.functions.len() > MAX_FUNCTIONS {
        return Err(ProtectError::TooManyFunctions);
    }
    let ghost orig = *module;
    let whitelist = whitelisted_functions(module);
    let shapes = collect_shapes(module, &whitelist);
    let n = module.functions.len();
    if shapes.len() > MAX_FUNCTIONS - n {
        return Err(ProtectError::TooManyFunctions);
    }
    let mut total: usize = 0;
    let mut f: usize = 0;
    while f < n
        invariant
            n == orig.functions@.len() <= MAX_FUNCTIONS,
            n + shapes@.len() <= MAX_FUNCTIONS,
            shapes@ == guard_shapes(orig),
            whitelist.wf(),
            forall|g: u32| #[trigger] whitelist.view().contains(g) <==> reachable_from_start(orig, g),
            f <= n,
            module.functions@.len() == n,
            module.memories == orig.memories,
            module.start == orig.start,
            total == saturated(stores_upto(orig, f as int).len()),
            forall|g: int| f <= g < n ==> #[trigger] module.functions@[g] == orig.functions@[g],
            forall|g: int| 0 <= g < f ==> {
                let o = #[trigger] orig.functions@[g];
                let w = module.functions@[g];
                if reachable_from_start(orig, g as u32) || o.code is None {
                    w == o
                } else {
                    &&& w.type_ == o.type_
                    &&& w.locals == o.locals
                    &&& w.code is Some
                    &&& guarded(o.body(), w.body(), n as int, shapes@)
                }
            },
        decreases n - f,
    {
        let ghost b = protected_body(orig, f as int);
        if !whitelist.contains(f as u32) {
            let rewritten = match &module.functions[f].code {
                Some(body) => {
                    proof {
                        assert forall|k: int| 0 <= k < body@.len() && store_shape(#[trigger] body@[k]) is Some
                            implies shapes@.contains(store_shape(body@[k])->0) by {
                            lemma_stores_upto_contains(orig, f as int, k);
                        }
                    }
                    Some(guard_stores(body, n, &shapes))
                },
                None => None,
            };
            if let Some((body, k)) = rewritten {
                module.functions[f].code = Some(body);
                total = if k <= usize::MAX - total { total + k } else { usize::MAX };
            } else {
                assert(stores_upto(orig, f + 1) =~= stores_upto(orig, f as int));
            }
        } else {
            assert(stores_upto(orig, f + 1) =~= stores_upto(orig, f as int));
        }
        f = f + 1;
    }
    let mut j: usize = 0;
    while j < shapes.len()
        invariant
            n == orig.functions@.len(),
            n + shapes@.len() <= MAX_FUNCTIONS,
            shapes@ == guard_shapes(orig),
            j <= shapes@.len(),
            module.functions@.len() == n + j,
            module.memories == orig.memories,
            module.start == orig.start,
            forall|g: int| 0 <= g < n ==> {
                let o = #[trigger] orig.functions@[g];
                let w = module.functions@[g];
                if reachable_from_start(orig, g as u32) || o.code is None {
                    w == o
                } else {
                    &&& w.type_ == o.type_
                    &&& w.locals == o.locals
                    &&& w.code is Some
                    &&& guarded(o.body(), w.body(), n as int, shapes@)
                }
            },
            forall|p: int| 0 <= p < j ==> is_guard(#[trigger] module.functions@[n + p], start_address, end_address, shapes@[p]),
        decreases shapes.len() - j,
    {
        let (op, ma) = shapes[j];
        let g = guard_function(start_address, end_address, op, ma);
        module.add_function(g);
        j = j + 1;
    }
    Ok(total)
}

/// Whitelist exemption: a function reachable from start keeps its body; none of its stores
/// is replaced by a guard call.
pub proof fn lemma_whitelist_exempt(old: Module, new: Module, start: u32, end: u32, f: u32)
    requires
        write_protected(old, new, start, end),
        f < old.functions@.len(),
        reachable_from_start(old, f),
    ensures
        new.functions@[f as int] == old.functions@[f as int],
        new.functions@[f as int].body() == old.functions@[f as int].body(),
{
    assert((f as int) as u32 == f);
}

proof fn lemma_guarded_unique(b: Seq<Instr>, x: Seq<Instr>, y: Seq<Instr>, n: int, shapes: Seq<StoreShape>)
    requires
        guarded(b, x, n, shapes),
        guarded(b, y, n, shapes),
        forall|i: int, j: int| 0 <= i < j < shapes.len() ==> shapes[i] != shapes[j],
    ensures
        x == y,
{
    assert forall|k: int| 0 <= k < x.len() implies x[k] == y[k] by {
        if store_shape(b[k]) is Some {
            let gx = x[k]->Call_0;
            let gy = y[k]->Call_0;
            assert(shapes[gx - n] == shapes[gy - n]);
        }
    }
    assert(x =~= y);
}

/// The guards and the functions they leave alone depend only on the module's views.
pub proof fn lemma_guard_shapes_views(o1: Module, o2: Module)
    requires
        same_module(o1, o2),
    ensures
        guard_shapes(o1) == guard_shapes(o2),
        forall|f: u32| reachable_from_start(o1, f) == reachable_from_start(o2, f),
{
    let n = o1.functions@.len() as int;
    assert forall|f: u32, g: u32| calls(o1, f, g) == calls(o2, f, g) by {
        if f < n {
            assert(same_function(o1.functions@[f as int], o2.functions@[f as int]));
        }
    }
    assert forall|l: Set<u32>| call_closed(o1, l) == call_closed(o2, l) by {
        if call_closed(o1, l) {
            assert forall|f: u32, g: u32| #[trigger] calls(o2, f, g) && l.contains(f) implies l.contains(g) by {
                assert(calls(o1, f, g));
            }
        }
        if call_closed(o2, l) {
            assert forall|f: u32, g: u32| #[trigger] calls(o1, f, g) && l.contains(f) implies l.contains(g) by {
                assert(calls(o2, f, g));
            }
        }
    }
    assert forall|f: u32| reachable_from_start(o1, f) == reachable_from_start(o2, f) by {
        if o1.start is Some {
            let st = o1.start->0;
            if reachable_from_start(o1, f) {
                assert forall|l: Set<u32>| l.contains(st) && call_closed(o2, l) implies #[trigger] l.contains(f) by {
                    assert(call_closed(o1, l));
                }
            }
            if reachable_from_start(o2, f) {
                assert forall|l: Set<u32>| l.contains(st) && call_closed(o1, l) implies #[trigger] l.contains(f) by {
                    assert(call_closed(o2, l));
                }
            }
        }
    }
    assert forall|f: int| 0 <= f < n implies #[trigger] protected_body(o1, f) == protected_body(o2, f) by {
        assert(same_function(o1.functions@[f], o2.functions@[f]));
        assert(reachable_from_start(o1, f as u32) == reachable_from_start(o2, f as u32));
    }
    lemma_stores_upto_views(o1, o2, n);
}

/// Write protection reads a module through its views only: from modules with the same
/// functions, data and start it makes modules with the same functions, data and start.
pub proof fn lemma_protection_respects_views(o1: Module, o2: Module, n1: Module, n2: Module, start: u32, end: u32)
    requires
        same_module(o1, o2),
        write_protected(o1, n1, start, end),
        write_protected(o2, n2, start, end),
    ensures
        same_module(n1, n2),
{
    let n = o1.functions@.len() as int;
    lemma_guard_shapes_views(o1, o2);
    let shapes = guard_shapes(o1);
    lemma_dedup(stores_upto(o1, n));
    assert forall|f: int| 0 <= f < n1.functions@.len() implies same_function(#[trigger] n1.functions@[f], n2.functions@[f]) by {
        if f < n {
            let a = o1.functions@[f];
            let b = o2.functions@[f];
            assert(same_function(a, b));
            assert(reachable_from_start(o1, f as u32) == reachable_from_start(o2, f as u32));
            if !(reachable_from_start(o1, f as u32) || a.code is None) {
                lemma_guarded_unique(a.body(), n1.functions@[f].body(), n2.functions@[f].body(), n, shapes);
            }
        } else {
            let j = f - n;
            assert(is_guard(n1.functions@[n + j], start, end, shapes[j]));
            assert(is_guard(n2.functions@[n + j], start, end, shapes[j]));
            assert(n1.functions@[f].type_.results@ =~= n2.functions@[f].type_.results@);
            assert(n1.functions@[f].locals@ =~= n2.functions@[f].locals@);
        }
    }
    assert(data_view(n1) == data_view(o1));
    assert(data_view(n2) == data_view(o2));
}

proof fn lemma_stores_upto_views(o1: Module, o2: Module, f: int)
    requires
        0 <= f <= o1.functions@.len(),
        forall|g: int| 0 <= g < o1.functions@.len() ==> #[trigger] protected_body(o1, g) == protected_body(o2, g),
    ensures
        stores_upto(o1, f) == stores_upto(o2, f),
    decreases f,
{
    if f > 0 {
        lemma_stores_upto_views(o1, o2, f - 1);
        assert(protected_body(o1, f - 1) == protected_body(o2, f - 1));
    }
}

} // verus!
