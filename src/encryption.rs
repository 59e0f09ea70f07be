//! XOR encryption of function pointers with a per-run canary: at rest in the data segments,
//! and decrypted in code right before each indirect call.
use vstd::prelude::*;
use crate::address_set::AddressSet;
use crate::scanner::{call_site_address, resolve_call_site};
use crate::wasm::{data_view, segment_view, memory_view, BinaryOp, DataSegment, DataView, Function, Instr, Module, SegmentView, Val};

verus! {

/// The length rounded up to a multiple of four: the bytes stored plus the stripped zeros.
pub open spec fn padded_len(n: nat) -> nat {
    ((n + 3) / 4 * 4) as nat
}

/// The segment holds the four bytes at `a`, counting the stripped zero padding.
pub open spec fn holds_span(s: SegmentView, a: u32) -> bool {
    s.0 <= a && a + 4 <= s.0 + padded_len(s.1.len())
}

/// Byte `k` (little-endian) of the canary.
pub open spec fn canary_byte(c: u32, k: int) -> u8 {
    ((c >> (8 * k) as u32) & 0xff) as u8
}

/// The byte at `i` of the padded segment: zero past the stored bytes.
pub open spec fn padded_byte(b: Seq<u8>, i: int) -> u8 {
    if i < b.len() { b[i] } else { 0 }
}

/// The segment with the four bytes at relative position `rel` XORed with the canary, little-endian.
/// The stored bytes grow only as far as the value reaches into the padding.
pub open spec fn xor_segment(s: SegmentView, rel: int, c: u32) -> SegmentView {
    let n = if rel + 4 > s.1.len() { rel + 4 } else { s.1.len() as int };
    (s.0, Seq::new(n as nat, |i: int| if rel <= i < rel + 4 {
        padded_byte(s.1, i) ^ canary_byte(c, i - rel)
    } else {
        padded_byte(s.1, i)
    }))
}

/// The first segment, in order of memories then segments, that holds the four bytes at `a`.
pub open spec fn first_segment_from(segs: Seq<SegmentView>, a: u32, j: int) -> Option<int>
    decreases segs.len() - j,
{
    if j < 0 || j >= segs.len() {
        None
    } else if holds_span(segs[j], a) {
        Some(j)
    } else {
        first_segment_from(segs, a, j + 1)
    }
}

pub open spec fn locate_from(v: DataView, a: u32, i: int) -> Option<(int, int)>
    decreases v.len() - i,
{
    if i < 0 || i >= v.len() {
        None
    } else {
        match first_segment_from(v[i], a, 0) {
            Some(j) => Some((i, j)),
            None => locate_from(v, a, i + 1),
        }
    }
}

pub open spec fn locate(v: DataView, a: u32) -> Option<(int, int)> {
    locate_from(v, a, 0)
}

/// Encrypts the pointer at `a` where it is located; nothing changes if it is nowhere.
pub open spec fn encrypt_at(v: DataView, a: u32, c: u32) -> DataView {
    match locate(v, a) {
        Some((i, j)) => v.update(i, v[i].update(j, xor_segment(v[i][j], a - v[i][j].0, c))),
        None => v,
    }
}

/// Encrypts the pointers at the addresses, in order.
pub open spec fn encrypt_all(v: DataView, addrs: Seq<u32>, c: u32) -> DataView
    decreases addrs.len(),
{
    if addrs.len() == 0 {
        v
    } else {
        encrypt_at(encrypt_all(v, addrs.drop_last(), c), addrs.last(), c)
    }
}

proof fn lemma_first_segment_bounds(segs: Seq<SegmentView>, a: u32, j: int)
    ensures
        first_segment_from(segs, a, j) matches Some(k) ==> j <= k < segs.len() && holds_span(segs[k], a),
    decreases segs.len() - j,
{
    if 0 <= j < segs.len() && !holds_span(segs[j], a) {
        lemma_first_segment_bounds(segs, a, j + 1);
    }
}

proof fn lemma_locate_bounds(v: DataView, a: u32, i: int)
    ensures
        locate_from(v, a, i) matches Some((p, q)) ==> i <= p < v.len() && 0 <= q < v[p].len() && holds_span(v[p][q], a),
    decreases v.len() - i,
{
    if 0 <= i < v.len() {
        lemma_first_segment_bounds(v[i], a, 0);
        lemma_locate_bounds(v, a, i + 1);
    }
}

/// Whether four bytes at relative position `rel` lie within `len` bytes padded to a multiple of four.
fn span_fits(len: usize, rel: u32) -> (r: bool)
    ensures
        r == (rel + 4 <= padded_len(len as nat)),
{
    let end: u64 = rel as u64 + 4;
    if len as u64 >= end {
        true
    } else {
        let l = len as u64;
        (l + 3) / 4 * 4 >= end
    }
}

/// Finds the segment that holds the four bytes at `a`: indices of the memory and of the segment.
pub fn locate_pointer(m: &Module, a: u32) -> (r: Option<(usize, usize)>)
    ensures
        match r {
            Some((i, j)) => locate(data_view(*m), a) == Some((i as int, j as int)),
            None => locate(data_view(*m), a) is None,
        },
{
    let ghost v = data_view(*m);
    proof {
        lemma_locate_bounds(v, a, 0);
    }
    let mut i: usize = 0;
    while i < m.memories.len()
        invariant
            i <= m.memories.len(),
            v == data_view(*m),
            locate_from(v, a, 0) == locate_from(v, a, i as int),
        decreases m.memories.len() - i,
    {
        let segs = &m.memories[i].data;
        let ghost sv = v[i as int];
        assert(sv == memory_view(m.memories@[i as int]));
        proof {
            lemma_first_segment_bounds(sv, a, 0);
        }
        let mut j: usize = 0;
        while j < segs.len()
            invariant
                j <= segs.len(),
                i < m.memories.len(),
                v == data_view(*m),
                sv == v[i as int],
                segs == m.memories@[i as int].data,
                locate_from(v, a, 0) == locate_from(v, a, i as int),
                sv.len() == segs.len(),
                forall|k: int| 0 <= k < segs.len() ==> sv[k] == segment_view(#[trigger] segs@[k]),
                first_segment_from(sv, a, 0) == first_segment_from(sv, a, j as int),
            decreases segs.len() - j,
        {
            let seg = &segs[j];
            if seg.offset <= a && span_fits(seg.bytes.len(), a - seg.offset) {
                assert(holds_span(sv[j as int], a));
                assert(first_segment_from(sv, a, j as int) == Some(j as int));
                return Some((i, j));
            }
            j = j + 1;
        }
        i = i + 1;
    }
    None
}

/// XORs the four bytes at `rel` with the canary, growing the stored bytes into the
/// padding only as far as the value reaches.
fn xor_segment_bytes(seg: &mut DataSegment, rel: u32, c: u32)
    requires
        rel + 4 <= padded_len(old(seg).bytes@.len()),
    ensures
        segment_view(*final(seg)) == xor_segment(segment_view(*old(seg)), rel as int, c),
{
    let ghost orig = old(seg).bytes@;
    let end: u64 = rel as u64 + 4;
    while (seg.bytes.len() as u64) < end
        invariant
            end == rel + 4,
            end <= padded_len(orig.len()),
            orig.len() <= seg.bytes@.len() <= if end > orig.len() { end as int } else { orig.len() as int },
            seg.offset == old(seg).offset,
            forall|i: int| 0 <= i < seg.bytes@.len() ==> #[trigger] seg.bytes@[i] == padded_byte(orig, i),
        decreases end - seg.bytes.len(),
    {
        seg.bytes.push(0);
    }
    let mut k: u32 = 0;
    while k < 4
        invariant
            k <= 4,
            end == rel + 4,
            seg.bytes@.len() == (if end > orig.len() { end as int } else { orig.len() as int }),
            seg.offset == old(seg).offset,
            forall|i: int| 0 <= i < seg.bytes@.len() ==> #[trigger] seg.bytes@[i] == if rel <= i < rel + k {
                padded_byte(orig, i) ^ canary_byte(c, i - rel)
            } else {
                padded_byte(orig, i)
            },
        decreases 4 - k,
    {
        let len = seg.bytes.len();
        assert(rel + k < len);
        let idx: usize = rel as usize + k as usize;
        let b = seg.bytes[idx];
        let cb: u8 = ((c >> (8 * k)) & 0xff) as u8;
        assert(idx - rel == k as int);
        assert((8 * (k as int)) as u32 == 8 * k);
        assert(cb == canary_byte(c, idx - rel));
        seg.bytes.set(idx, b ^ cb);
        k = k + 1;
    }
    assert(seg.bytes@ =~= xor_segment(segment_view(*old(seg)), rel as int, c).1);
}

/// Encrypts, in increasing order, the pointer at each address of `addrs` where the data
/// segments hold it. Fails, changing nothing, with the first address that no segment holds.
pub fn encrypt_pointers(m: &mut Module, addrs: &AddressSet, c: u32) -> (r: Result<(), u32>)
    requires
        addrs.wf(),
    ensures
        final(m).functions == old(m).functions,
        final(m).start == old(m).start,
        r is Ok <==> forall|a: u32| #[trigger] addrs.view().contains(a) ==> locate(data_view(*old(m)), a) is Some,
        match r {
            Ok(()) => data_view(*final(m)) == encrypt_all(data_view(*old(m)), addrs.items@, c),
            Err(a) => addrs.view().contains(a) && locate(data_view(*old(m)), a) is None && *final(m) == *old(m),
        },
{
    let n = addrs.items.len();
    let mut i: usize = 0;
    while i < n
        invariant
            i <= n == addrs.items@.len(),
            *m == *old(m),
            forall|j: int| 0 <= j < i ==> locate(data_view(*m), #[trigger] addrs.items@[j]) is Some,
        decreases n - i,
    {
        let a = addrs.items[i];
        if locate_pointer(m, a).is_none() {
            assert(addrs.view().contains(a));
            return Err(a);
        }
        i = i + 1;
    }
    assert forall|a: u32| #[trigger] addrs.view().contains(a) implies locate(data_view(*old(m)), a) is Some by {
        let j = choose|j: int| 0 <= j < addrs.items@.len() && addrs.items@[j] == a;
    }
    let ghost v0 = data_view(*m);
    let mut i: usize = 0;
    while i < n
        invariant
            i <= n == addrs.items@.len(),
            m.functions == old(m).functions,
            m.start == old(m).start,
            data_view(*m) == encrypt_all(v0, addrs.items@.subrange(0, i as int), c),
        decreases n - i,
    {
        let a = addrs.items[i];
        let ghost v = data_view(*m);
        assert(addrs.items@.subrange(0, i + 1).drop_last() =~= addrs.items@.subrange(0, i as int));
        match locate_pointer(m, a) {
            Some((p, q)) => {
                proof {
                    lemma_locate_bounds(v, a, 0);
                }
                let offset = m.memories[p].data[q].offset;
                xor_segment_bytes(&mut m.memories[p].data[q], a - offset, c);
                assert(data_view(*m) =~~= encrypt_at(v, a, c));
            },
            None => {},
        }
        i = i + 1;
    }
    assert(addrs.items@.subrange(0, n as int) =~= addrs.items@);
    Ok(())
}

/// The two instructions that decrypt the pointer on top of the stack.
pub open spec fn decrypt_sequence(c: u32) -> Seq<Instr> {
    seq![Instr::Const(Val::I32(c as i32)), Instr::Binary(BinaryOp::I32Xor)]
}

/// The first `n` instructions of the body, each resolved indirect call preceded by the decryption.
pub open spec fn patched_prefix(body: Seq<Instr>, c: u32, n: int) -> Seq<Instr>
    decreases n,
{
    if n <= 0 {
        Seq::empty()
    } else if call_site_address(body, n - 1) is Some {
        patched_prefix(body, c, n - 1) + decrypt_sequence(c).push(body[n - 1])
    } else {
        patched_prefix(body, c, n - 1).push(body[n - 1])
    }
}

pub open spec fn patched_body(body: Seq<Instr>, c: u32) -> Seq<Instr> {
    patched_prefix(body, c, body.len() as int)
}

/// The number of resolved indirect calls among the first `n` instructions.
pub open spec fn resolved_sites(body: Seq<Instr>, n: int) -> nat
    decreases n,
{
    if n <= 0 {
        0
    } else {
        resolved_sites(body, n - 1) + if call_site_address(body, n - 1) is Some { 1nat } else { 0nat }
    }
}

proof fn lemma_resolved_sites_bound(body: Seq<Instr>, n: int)
    ensures
        resolved_sites(body, n) <= if n < 0 { 0 } else { n },
    decreases n,
{
    if n > 0 {
        lemma_resolved_sites_bound(body, n - 1);
    }
}

/// The body with the decryption inserted before each resolved indirect call, and how many there are.
pub fn patch_body(body: &Vec<Instr>, c: u32) -> (r: (Vec<Instr>, usize))
    ensures
        r.0@ == patched_body(body@, c),
        r.1 == resolved_sites(body@, body@.len() as int),
{
    let mut out: Vec<Instr> = Vec::new();
    let mut count: usize = 0;
    let mut i: usize = 0;
    while i < body.len()
        invariant
            i <= body.len(),
            out@ == patched_prefix(body@, c, i as int),
            count == resolved_sites(body@, i as int),
        decreases body.len() - i,
    {
        proof {
            lemma_resolved_sites_bound(body@, i as int);
        }
        if resolve_call_site(body, i).is_some() {
            out.push(Instr::Const(Val::I32(c as i32)));
            out.push(Instr::Binary(BinaryOp::I32Xor));
            out.push(body[i]);
            count = count + 1;
            assert(out@ =~= patched_prefix(body@, c, i as int) + decrypt_sequence(c).push(body@[i as int]));
        } else {
            out.push(body[i]);
        }
        i = i + 1;
    }
    (out, count)
}

/// `new` is `old` with the decryption inserted before each resolved indirect call of its body.
pub open spec fn calls_patched(old: Function, new: Function, c: u32) -> bool {
    &&& new.type_ == old.type_
    &&& new.locals == old.locals
    &&& new.code is Some <==> old.code is Some
    &&& new.body() == patched_body(old.body(), c)
}

/// The number of resolved indirect calls in the functions before `f`.
pub open spec fn module_resolved_sites(fs: Seq<Function>, f: int) -> nat
    decreases f,
{
    if f <= 0 {
        0
    } else {
        module_resolved_sites(fs, f - 1) + resolved_sites(fs[f - 1].body(), fs[f - 1].body().len() as int)
    }
}

/// `n`, or `usize::MAX` if it is larger.
pub open spec fn saturated(n: nat) -> int {
    if n <= usize::MAX { n as int } else { usize::MAX as int }
}

/// Inserts the decryption before every resolved indirect call of the module, and returns
/// how many there are (saturated at `usize::MAX`).
pub fn patch_call_sites(m: &mut Module, c: u32) -> (n: usize)
    ensures
        final(m).functions@.len() == old(m).functions@.len(),
        forall|f: int| 0 <= f < old(m).functions@.len() ==> calls_patched(#[trigger] old(m).functions@[f], final(m).functions@[f], c),
        final(m).memories == old(m).memories,
        final(m).start == old(m).start,
        n == saturated(module_resolved_sites(old(m).functions@, old(m).functions@.len() as int)),
{
    let ghost fs = old(m).functions@;
    let mut total: usize = 0;
    let mut f: usize = 0;
    while f < m.functions.len()
        invariant
            f <= m.functions@.len() == fs.len(),
            forall|g: int| 0 <= g < f ==> calls_patched(#[trigger] fs[g], m.functions@[g], c),
            forall|g: int| f <= g < fs.len() ==> m.functions@[g] == #[trigger] fs[g],
            m.memories == old(m).memories,
            m.start == old(m).start,
            total == saturated(module_resolved_sites(fs, f as int)),
        decreases fs.len() - f,
    {
        let patched = match &m.functions[f].code {
            Some(body) => Some(patch_body(body, c)),
            None => None,
        };
        if let Some((body, k)) = patched {
            m.functions[f].code = Some(body);
            total = if k <= usize::MAX - total { total + k } else { usize::MAX };
        }
        f = f + 1;
    }
    total
}

proof fn lemma_padded_len(n: nat)
    ensures
        n <= padded_len(n) < n + 4,
        padded_len(n) % 4 == 0,
        padded_len(n) == n <==> n % 4 == 0,
{
}

/// Padding restoration: encrypting a pointer that ends at least four bytes before the padded
/// end of its segment keeps the stored length; encrypting the pointer in the last four bytes
/// of the padded segment stores the segment up to its padded end, which extends it exactly
/// when its length was not a multiple of four.
pub proof fn lemma_padding_restoration(s: SegmentView, a: u32, c: u32)
    requires
        holds_span(s, a),
    ensures
        a - s.0 + 4 <= padded_len(s.1.len()) - 4 ==> xor_segment(s, a - s.0, c).1.len() == s.1.len(),
        a - s.0 + 4 == padded_len(s.1.len()) ==> xor_segment(s, a - s.0, c).1.len() == padded_len(s.1.len()),
        a - s.0 + 4 == padded_len(s.1.len()) ==> (xor_segment(s, a - s.0, c).1.len() != s.1.len() <==> s.1.len() % 4 != 0),
{
    lemma_padded_len(s.1.len());
}

/// What `locate` depends on: each segment's offset and padded length.
pub open spec fn layout(v: DataView) -> Seq<Seq<(u32, nat)>> {
    Seq::new(v.len(), |i: int| Seq::new(v[i].len(), |j: int| (v[i][j].0, padded_len(v[i][j].1.len()))))
}

/// Each segment with its stripped zero padding restored.
pub open spec fn padded_view(v: DataView) -> Seq<Seq<(u32, Seq<u8>)>> {
    Seq::new(v.len(), |i: int| Seq::new(v[i].len(), |j: int|
        (v[i][j].0, Seq::new(padded_len(v[i][j].1.len()), |p: int| padded_byte(v[i][j].1, p)))))
}

proof fn lemma_layout_facts(v: DataView, w: DataView)
    requires
        layout(v) == layout(w),
    ensures
        v.len() == w.len(),
        forall|i: int| 0 <= i < v.len() ==> #[trigger] v[i].len() == w[i].len(),
        forall|i: int, j: int| 0 <= i < v.len() && 0 <= j < v[i].len() ==> #[trigger] v[i][j].0 == w[i][j].0
            && padded_len(v[i][j].1.len()) == padded_len(w[i][j].1.len()),
{
    assert(layout(v).len() == v.len());
    assert(layout(w).len() == w.len());
    assert forall|i: int| 0 <= i < v.len() implies #[trigger] v[i].len() == w[i].len() by {
        assert(layout(v)[i].len() == v[i].len());
        assert(layout(w)[i].len() == w[i].len());
    }
    assert forall|i: int, j: int| 0 <= i < v.len() && 0 <= j < v[i].len() implies #[trigger] v[i][j].0 == w[i][j].0
        && padded_len(v[i][j].1.len()) == padded_len(w[i][j].1.len()) by {
        assert(layout(v)[i].len() == v[i].len());
        assert(layout(w)[i].len() == w[i].len());
        assert(layout(v)[i][j] == (v[i][j].0, padded_len(v[i][j].1.len())));
        assert(layout(w)[i][j] == (w[i][j].0, padded_len(w[i][j].1.len())));
    }
}

proof fn lemma_first_segment_layout(s: Seq<SegmentView>, t: Seq<SegmentView>, a: u32, j: int)
    requires
        s.len() == t.len(),
        forall|k: int| 0 <= k < s.len() ==> #[trigger] s[k].0 == t[k].0 && padded_len(s[k].1.len()) == padded_len(t[k].1.len()),
    ensures
        first_segment_from(s, a, j) == first_segment_from(t, a, j),
    decreases s.len() - j,
{
    if 0 <= j < s.len() {
        assert(s[j].0 == t[j].0);
        lemma_first_segment_layout(s, t, a, j + 1);
    }
}

proof fn lemma_locate_layout(v: DataView, w: DataView, a: u32, i: int)
    requires
        layout(v) == layout(w),
    ensures
        locate_from(v, a, i) == locate_from(w, a, i),
    decreases v.len() - i,
{
    lemma_layout_facts(v, w);
    if 0 <= i < v.len() {
        assert forall|k: int| 0 <= k < v[i].len() implies #[trigger] v[i][k].0 == w[i][k].0
            && padded_len(v[i][k].1.len()) == padded_len(w[i][k].1.len()) by {}
        lemma_first_segment_layout(v[i], w[i], a, 0);
        lemma_locate_layout(v, w, a, i + 1);
    }
}

/// The canary byte that encrypting the pointer at `a` XORs into byte `p` of segment `(i, j)`.
pub open spec fn contribution(v: DataView, a: u32, c: u32, i: int, j: int, p: int) -> u8 {
    match locate(v, a) {
        Some((x, y)) => if x == i && y == j && a - v[i][j].0 <= p < a - v[i][j].0 + 4 {
            canary_byte(c, p - (a - v[i][j].0))
        } else {
            0
        },
        None => 0,
    }
}

/// The XOR of the contributions of all the addresses to byte `p` of segment `(i, j)`.
pub open spec fn mask(v: DataView, addrs: Seq<u32>, c: u32, i: int, j: int, p: int) -> u8
    decreases addrs.len(),
{
    if addrs.len() == 0 {
        0
    } else {
        mask(v, addrs.drop_last(), c, i, j, p) ^ contribution(v, addrs.last(), c, i, j, p)
    }
}

proof fn lemma_mask_layout(v: DataView, w: DataView, addrs: Seq<u32>, c: u32, i: int, j: int, p: int)
    requires
        layout(v) == layout(w),
    ensures
        mask(v, addrs, c, i, j, p) == mask(w, addrs, c, i, j, p),
    decreases addrs.len(),
{
    lemma_layout_facts(v, w);
    if addrs.len() > 0 {
        lemma_mask_layout(v, w, addrs.drop_last(), c, i, j, p);
        lemma_locate_layout(v, w, addrs.last(), 0);
        lemma_locate_bounds(v, addrs.last(), 0);
    }
}

proof fn lemma_xor_zero(x: u8)
    ensures
        x ^ 0 == x,
{
    assert(x ^ 0 == x) by (bit_vector);
}

proof fn lemma_xor_assoc(x: u8, y: u8, z: u8)
    ensures
        (x ^ y) ^ z == x ^ (y ^ z),
        (x ^ y) ^ y == x,
{
    assert((x ^ y) ^ z == x ^ (y ^ z)) by (bit_vector);
    assert((x ^ y) ^ y == x) by (bit_vector);
}

/// Encrypting one pointer keeps the layout and XORs its contribution into the padded bytes.
proof fn lemma_encrypt_at_effect(v: DataView, a: u32, c: u32)
    ensures
        layout(encrypt_at(v, a, c)) == layout(v),
        forall|i: int, j: int, p: int| 0 <= i < v.len() && 0 <= j < v[i].len() && 0 <= p < padded_len(v[i][j].1.len())
            ==> #[trigger] padded_byte(encrypt_at(v, a, c)[i][j].1, p) == padded_byte(v[i][j].1, p) ^ contribution(v, a, c, i, j, p),
{
    let w = encrypt_at(v, a, c);
    lemma_locate_bounds(v, a, 0);
    match locate(v, a) {
        Some((x, y)) => {
            let s = v[x][y];
            let rel = a - s.0;
            lemma_padded_len(s.1.len());
            let t = xor_segment(s, rel, c);
            lemma_padded_len(t.1.len());
            assert(padded_len(t.1.len()) == padded_len(s.1.len()));
            assert(layout(w) =~~= layout(v));
            assert forall|i: int, j: int, p: int| 0 <= i < v.len() && 0 <= j < v[i].len() && 0 <= p < padded_len(v[i][j].1.len())
                implies #[trigger] padded_byte(w[i][j].1, p) == padded_byte(v[i][j].1, p) ^ contribution(v, a, c, i, j, p) by {
                lemma_xor_zero(padded_byte(v[i][j].1, p));
            }
        },
        None => {
            assert forall|i: int, j: int, p: int| 0 <= i < v.len() && 0 <= j < v[i].len() && 0 <= p < padded_len(v[i][j].1.len())
                implies #[trigger] padded_byte(w[i][j].1, p) == padded_byte(v[i][j].1, p) ^ contribution(v, a, c, i, j, p) by {
                lemma_xor_zero(padded_byte(v[i][j].1, p));
            }
        },
    }
}

/// Encrypting a sequence of pointers keeps the layout and XORs the mask into the padded bytes.
proof fn lemma_encrypt_all_effect(v: DataView, addrs: Seq<u32>, c: u32)
    ensures
        layout(encrypt_all(v, addrs, c)) == layout(v),
        forall|i: int, j: int, p: int| 0 <= i < v.len() && 0 <= j < v[i].len() && 0 <= p < padded_len(v[i][j].1.len())
            ==> #[trigger] padded_byte(encrypt_all(v, addrs, c)[i][j].1, p) == padded_byte(v[i][j].1, p) ^ mask(v, addrs, c, i, j, p),
    decreases addrs.len(),
{
    if addrs.len() == 0 {
        assert(encrypt_all(v, addrs, c) == v);
        assert(layout(encrypt_all(v, addrs, c)) == layout(v));
        assert forall|i: int, j: int, p: int| 0 <= i < v.len() && 0 <= j < v[i].len() && 0 <= p < padded_len(v[i][j].1.len())
            implies #[trigger] padded_byte(encrypt_all(v, addrs, c)[i][j].1, p) == padded_byte(v[i][j].1, p) ^ mask(v, addrs, c, i, j, p) by {
            lemma_xor_zero(padded_byte(v[i][j].1, p));
        }
    } else {
        let prev = addrs.drop_last();
        let w = encrypt_all(v, prev, c);
        lemma_encrypt_all_effect(v, prev, c);
        lemma_encrypt_at_effect(w, addrs.last(), c);
        lemma_layout_facts(w, v);
        assert forall|i: int, j: int, p: int| 0 <= i < v.len() && 0 <= j < v[i].len() && 0 <= p < padded_len(v[i][j].1.len())
            implies #[trigger] padded_byte(encrypt_all(v, addrs, c)[i][j].1, p) == padded_byte(v[i][j].1, p) ^ mask(v, addrs, c, i, j, p) by {
            lemma_locate_layout(w, v, addrs.last(), 0);
            assert(w[i].len() == v[i].len());
            assert(w[i][j].0 == v[i][j].0);
            assert(encrypt_all(v, addrs, c) == encrypt_at(w, addrs.last(), c));
            assert(padded_byte(encrypt_at(w, addrs.last(), c)[i][j].1, p)
                == padded_byte(w[i][j].1, p) ^ contribution(w, addrs.last(), c, i, j, p));
            assert(contribution(w, addrs.last(), c, i, j, p) == contribution(v, addrs.last(), c, i, j, p));
            assert(padded_byte(w[i][j].1, p) == padded_byte(v[i][j].1, p) ^ mask(v, prev, c, i, j, p));
            lemma_xor_assoc(padded_byte(v[i][j].1, p), mask(v, prev, c, i, j, p), contribution(v, addrs.last(), c, i, j, p));
        }
    }
}

/// Round trip: encrypting the output again, with the same addresses and the same canary,
/// gives back every segment's bytes as they were (up to the stripped zero padding).
pub proof fn lemma_round_trip(v: DataView, addrs: Seq<u32>, c: u32)
    ensures
        padded_view(encrypt_all(encrypt_all(v, addrs, c), addrs, c)) == padded_view(v),
{
    let w = encrypt_all(v, addrs, c);
    let u = encrypt_all(w, addrs, c);
    lemma_encrypt_all_effect(v, addrs, c);
    lemma_encrypt_all_effect(w, addrs, c);
    lemma_layout_facts(w, v);
    lemma_layout_facts(u, w);
    assert forall|i: int, j: int, p: int| 0 <= i < v.len() && 0 <= j < v[i].len() && 0 <= p < padded_len(v[i][j].1.len())
        implies #[trigger] padded_byte(u[i][j].1, p) == padded_byte(v[i][j].1, p) by {
        lemma_mask_layout(w, v, addrs, c, i, j, p);
        assert(w[i].len() == v[i].len());
        assert(w[i][j].0 == v[i][j].0);
        assert(padded_byte(u[i][j].1, p) == padded_byte(w[i][j].1, p) ^ mask(w, addrs, c, i, j, p));
        lemma_xor_assoc(padded_byte(v[i][j].1, p), mask(v, addrs, c, i, j, p), mask(v, addrs, c, i, j, p));
    }
    assert forall|i: int| 0 <= i < v.len() implies #[trigger] padded_view(u)[i] =~~= padded_view(v)[i] by {
        assert forall|j: int| 0 <= j < v[i].len() implies #[trigger] padded_view(u)[i][j] =~~= padded_view(v)[i][j] by {
            assert(padded_view(u)[i][j].1 =~= padded_view(v)[i][j].1);
        }
    }
    assert(padded_view(u) =~~= padded_view(v));
}

/// How far the stored bytes of segment `(i, j)` reach after encrypting the addresses: never
/// shorter than before, never past the padded length, at least to the end of every pointer
/// encrypted there, and either as before or exactly to the end of one of those pointers.
proof fn lemma_encrypt_all_lengths(v: DataView, addrs: Seq<u32>, c: u32, i: int, j: int)
    requires
        0 <= i < v.len(),
        0 <= j < v[i].len(),
    ensures
        ({
            let n = v[i][j].1.len();
            let m = encrypt_all(v, addrs, c)[i][j].1.len();
            &&& encrypt_all(v, addrs, c).len() == v.len()
            &&& encrypt_all(v, addrs, c)[i].len() == v[i].len()
            &&& n <= m <= padded_len(n)
            &&& forall|k: int| 0 <= k < addrs.len() && locate(v, #[trigger] addrs[k]) == Some((i, j))
                ==> addrs[k] - v[i][j].0 + 4 <= m
            &&& m == n || exists|k: int| 0 <= k < addrs.len() && locate(v, #[trigger] addrs[k]) == Some((i, j))
                && m == addrs[k] - v[i][j].0 + 4
        }),
    decreases addrs.len(),
{
    lemma_padded_len(v[i][j].1.len());
    if addrs.len() > 0 {
        let prev = addrs.drop_last();
        let a = addrs.last();
        let w = encrypt_all(v, prev, c);
        lemma_encrypt_all_lengths(v, prev, c, i, j);
        lemma_encrypt_all_effect(v, prev, c);
        lemma_layout_facts(w, v);
        lemma_locate_layout(w, v, a, 0);
        lemma_locate_bounds(w, a, 0);
        lemma_encrypt_at_effect(w, a, c);
        lemma_layout_facts(encrypt_at(w, a, c), w);
        assert(w[i].len() == v[i].len());
        assert(w[i][j].0 == v[i][j].0);
        assert(encrypt_all(v, addrs, c) == encrypt_at(w, a, c));
        let m0 = w[i][j].1.len();
        let m = encrypt_at(w, a, c)[i][j].1.len();
        assert forall|k: int| 0 <= k < addrs.len() && locate(v, #[trigger] addrs[k]) == Some((i, j))
            implies addrs[k] - v[i][j].0 + 4 <= m by {
            if k < prev.len() {
                assert(prev[k] == addrs[k]);
            }
        }
        if m != v[i][j].1.len() {
            if locate(w, a) == Some((i, j)) && m != m0 {
                assert(addrs[addrs.len() - 1] == a);
            } else {
                let k = choose|k: int| 0 <= k < prev.len() && locate(v, #[trigger] prev[k]) == Some((i, j))
                    && m0 == prev[k] - v[i][j].0 + 4;
                assert(addrs[k] == prev[k]);
            }
        }
    }
}

/// Padding restoration over a whole run. If every pointer encrypted in segment `(i, j)` ends
/// within its stored bytes, the segment keeps its length. If one of them occupies the last four
/// bytes of the padded segment, the segment ends up at its padded length, which extends it
/// exactly when its length was not a multiple of four.
pub proof fn lemma_padding_restoration_all(v: DataView, addrs: Seq<u32>, c: u32, i: int, j: int)
    requires
        0 <= i < v.len(),
        0 <= j < v[i].len(),
    ensures
        (forall|a: u32| addrs.contains(a) && locate(v, a) == Some((i, j)) ==> a - v[i][j].0 + 4 <= v[i][j].1.len())
            ==> encrypt_all(v, addrs, c)[i][j].1.len() == v[i][j].1.len(),
        (exists|a: u32| addrs.contains(a) && locate(v, a) == Some((i, j)) && a - v[i][j].0 + 4 == padded_len(v[i][j].1.len()))
            ==> encrypt_all(v, addrs, c)[i][j].1.len() == padded_len(v[i][j].1.len())
                && (encrypt_all(v, addrs, c)[i][j].1.len() != v[i][j].1.len() <==> v[i][j].1.len() % 4 != 0),
{
    lemma_encrypt_all_lengths(v, addrs, c, i, j);
    lemma_padded_len(v[i][j].1.len());
    let n = v[i][j].1.len();
    let m = encrypt_all(v, addrs, c)[i][j].1.len();
    if forall|a: u32| addrs.contains(a) && locate(v, a) == Some((i, j)) ==> a - v[i][j].0 + 4 <= n {
        if m != n {
            let k = choose|k: int| 0 <= k < addrs.len() && locate(v, #[trigger] addrs[k]) == Some((i, j))
                && m == addrs[k] - v[i][j].0 + 4;
            assert(addrs.contains(addrs[k]));
        }
    }
    if exists|a: u32| addrs.contains(a) && locate(v, a) == Some((i, j)) && a - v[i][j].0 + 4 == padded_len(n) {
        let a = choose|a: u32| addrs.contains(a) && locate(v, a) == Some((i, j)) && a - v[i][j].0 + 4 == padded_len(n);
        let k = choose|k: int| 0 <= k < addrs.len() && addrs[k] == a;
        assert(locate(v, addrs[k]) == Some((i, j)));
    }
}

} // verus!
