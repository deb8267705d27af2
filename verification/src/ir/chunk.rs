//! Splitting the layout of a function into chunks of bounded size, as a
//! code generator does for large functions: each chunk becomes a function
//! of its own, called in sequence, and results read outside the chunk that
//! defines them travel through slots of a scratch buffer.
use vstd::prelude::*;

use crate::ir::function::{Function, InstructionData, Value, ValueData};

verus! {

/// Which chunk defines each instruction, and which results get a scratch
/// slot.
pub struct ChunkPlan {
    /// Number of chunks, at least one.
    pub n_chunks: usize,
    /// Chunk of each instruction; `u32::MAX` for one outside the layout.
    pub chunk_of: Vec<u32>,
    /// Scratch slot of each instruction whose result crosses a chunk
    /// boundary.
    pub slot: Vec<Option<u32>>,
    /// Number of scratch slots.
    pub n_slots: u32,
}

/// Value `v` is the result of instruction `i`.
pub open spec fn result_of(f: &Function, v: Value, i: int) -> bool {
    v < f.values@.len() && f.values@[v as int] is Result && f.values@[v as int]->inst == i
}

/// Instruction `d` reads value `v`.
pub open spec fn reads(d: InstructionData, v: Value) -> bool {
    match d {
        InstructionData::Unary(_, a) => a == v,
        InstructionData::Binary(_, a, b) => a == v || b == v,
        _ => false,
    }
}

/// The chunk of layout position `pos`.
pub open spec fn chunk_at(pos: int, chunk_size: nat) -> int {
    pos / (chunk_size as int)
}

/// Number of chunks for a layout of `len` instructions: enough for all of
/// them, and at least one.
pub open spec fn num_chunks(len: nat, chunk_size: nat) -> nat {
    if len == 0 {
        1
    } else {
        ((len + chunk_size - 1) / (chunk_size as int)) as nat
    }
}

/// The last position before `upto` at which the layout holds `i`, or -1.
pub open spec fn last_pos(layout: Seq<usize>, i: int, upto: int) -> int
    decreases upto,
{
    if upto <= 0 || upto > layout.len() {
        -1
    } else if layout[upto - 1] == i {
        upto - 1
    } else {
        last_pos(layout, i, upto - 1)
    }
}

/// The chunk of the last layout position before `upto` that holds
/// instruction `i`, or `u32::MAX` if there is none.
pub open spec fn chunk_upto(layout: Seq<usize>, chunk_size: nat, i: int, upto: int) -> int {
    let lp = last_pos(layout, i, upto);
    if lp < 0 {
        u32::MAX as int
    } else {
        chunk_at(lp, chunk_size)
    }
}

/// The chunk that defines instruction `i`: that of its last position in
/// the layout, or `u32::MAX` if it has none.
pub open spec fn defining_chunk(f: &Function, chunk_size: nat, i: int) -> int {
    chunk_upto(f.layout@, chunk_size, i, f.layout@.len() as int)
}

/// Some layout position before `upto` reads the result of instruction `i`
/// in a chunk other than `chunk_of[i]`.
pub open spec fn read_across(f: &Function, chunk_of: Seq<u32>, chunk_size: nat, i: int, upto: int) -> bool {
    exists|pos: int, v: Value|
        0 <= pos < upto && #[trigger] reads(f.insts@[f.layout@[pos] as int], v) && result_of(f, v, i)
            && chunk_of[i] != chunk_at(pos, chunk_size)
}

/// One of the first `upto` returns is the result of instruction `i`, and
/// `chunk_of[i]` is not `last`, the chunk that writes the returns.
pub open spec fn returned_across(f: &Function, chunk_of: Seq<u32>, last: int, i: int, upto: int) -> bool {
    exists|k: int| 0 <= k < upto && result_of(f, #[trigger] f.returns@[k], i) && chunk_of[i] != last
}

/// The result of instruction `i` is read in a chunk other than
/// `chunk_of[i]`, or is returned and `chunk_of[i]` is not the last chunk.
pub open spec fn crosses(f: &Function, chunk_of: Seq<u32>, chunk_size: nat, last: int, i: int) -> bool {
    ||| read_across(f, chunk_of, chunk_size, i, f.layout@.len() as int)
    ||| returned_across(f, chunk_of, last, i, f.returns@.len() as int)
}

/// Some instruction has slot `s`.
pub open spec fn slot_taken(slot: Seq<Option<u32>>, s: int) -> bool {
    exists|i: int| 0 <= i < slot.len() && slot[i] == Some(s as u32)
}

/// Number of filled slots.
pub open spec fn count_some(slot: Seq<Option<u32>>) -> nat
    decreases slot.len(),
{
    if slot.len() == 0 {
        0
    } else {
        count_some(slot.drop_last()) + if slot.last() is Some {
            1nat
        } else {
            0nat
        }
    }
}

proof fn lemma_count_some_bound(slot: Seq<Option<u32>>)
    ensures
        count_some(slot) <= slot.len(),
    decreases slot.len(),
{
    if slot.len() > 0 {
        lemma_count_some_bound(slot.drop_last());
    }
}

proof fn lemma_count_some_fill(slot: Seq<Option<u32>>, i: int, x: u32)
    requires
        0 <= i < slot.len(),
        slot[i] is None,
    ensures
        count_some(slot.update(i, Some(x))) == count_some(slot) + 1,
    decreases slot.len(),
{
    let t = slot.update(i, Some(x));
    if i == slot.len() - 1 {
        assert(t.drop_last() =~= slot.drop_last());
    } else {
        assert(t.drop_last() =~= slot.drop_last().update(i, Some(x)));
        lemma_count_some_fill(slot.drop_last(), i, x);
    }
}

proof fn lemma_count_none(slot: Seq<Option<u32>>)
    requires
        forall|i: int| 0 <= i < slot.len() ==> #[trigger] slot[i] is None,
    ensures
        count_some(slot) == 0,
    decreases slot.len(),
{
    if slot.len() > 0 {
        lemma_count_none(slot.drop_last());
    }
}

/// The instruction whose result `v` is, if it is defined in a chunk other
/// than `c`: reading or returning `v` in chunk `c` crosses a boundary.
pub open spec fn crossing(f: &Function, chunk_of: Seq<u32>, v: Value, c: int) -> Seq<int> {
    if v < f.values@.len() && f.values@[v as int] is Result && chunk_of[f.values@[v as int]->inst as int] != c {
        seq![f.values@[v as int]->inst as int]
    } else {
        Seq::empty()
    }
}

/// The crossings of the reads at the first `pos` layout positions, in
/// order: for each position, its first operand, then its second.
pub open spec fn read_crossings(f: &Function, chunk_of: Seq<u32>, chunk_size: nat, pos: int) -> Seq<int>
    decreases pos,
{
    if pos <= 0 || pos > f.layout@.len() {
        Seq::empty()
    } else {
        let c = chunk_at(pos - 1, chunk_size);
        read_crossings(f, chunk_of, chunk_size, pos - 1) + match f.insts@[f.layout@[pos - 1] as int] {
            InstructionData::Unary(_, a) => crossing(f, chunk_of, a, c),
            InstructionData::Binary(_, a, b) => crossing(f, chunk_of, a, c) + crossing(f, chunk_of, b, c),
            _ => Seq::empty(),
        }
    }
}

/// The crossings of the first `k` returns, all written by chunk `last`.
pub open spec fn return_crossings(f: &Function, chunk_of: Seq<u32>, last: int, k: int) -> Seq<int>
    decreases k,
{
    if k <= 0 || k > f.returns@.len() {
        Seq::empty()
    } else {
        return_crossings(f, chunk_of, last, k - 1) + crossing(f, chunk_of, f.returns@[k - 1], last)
    }
}

/// The elements of `s` in the order of their first occurrence.
pub open spec fn first_occurrences(s: Seq<int>) -> Seq<int>
    decreases s.len(),
{
    if s.len() == 0 {
        Seq::empty()
    } else {
        let p = first_occurrences(s.drop_last());
        if p.contains(s.last()) {
            p
        } else {
            p.push(s.last())
        }
    }
}

/// Slot `s` belongs to the `s`-th instruction of `order`, and only the
/// instructions of `order` have one.
spec fn slots_follow(slot: Seq<Option<u32>>, n: u32, order: Seq<int>) -> bool {
    &&& n == order.len()
    &&& forall|s: int| 0 <= s < order.len() ==> 0 <= #[trigger] order[s] < slot.len() && slot[order[s]] == Some(s as u32)
    &&& forall|i: int| 0 <= i < slot.len() && (#[trigger] slot[i]) is Some ==> order.contains(i)
}

proof fn lemma_follow_step(slot0: Seq<Option<u32>>, n0: u32, events: Seq<int>, slot1: Seq<Option<u32>>, n1: u32, e: Seq<int>)
    requires
        slots_follow(slot0, n0, first_occurrences(events)),
        e.len() <= 1,
        e.len() == 1 ==> 0 <= e[0] < slot0.len(),
        e.len() == 1 && slot0[e[0]] is None ==> slot1 == slot0.update(e[0], Some(n0)) && n1 == n0 + 1,
        !(e.len() == 1 && slot0[e[0]] is None) ==> slot1 == slot0 && n1 == n0,
    ensures
        slots_follow(slot1, n1, first_occurrences(events + e)),
{
    let order = first_occurrences(events);
    if e.len() == 0 {
        assert(events + e =~= events);
    } else {
        let x = e[0];
        assert((events + e).drop_last() =~= events);
        assert((events + e).last() == x);
        assert((events + e).len() > 0);
        if slot0[x] is Some {
            assert(order.contains(x));
        } else {
            assert(!order.contains(x)) by {
                if order.contains(x) {
                    let s = choose|s: int| 0 <= s < order.len() && order[s] == x;
                    assert(slot0[order[s]] == Some(s as u32));
                }
            }
            let o2 = order.push(x);
            assert(first_occurrences(events + e) == o2);
            assert forall|s: int| 0 <= s < o2.len() implies 0 <= #[trigger] o2[s] < slot1.len() && slot1[o2[s]] == Some(s as u32) by {
                if s < order.len() {
                    assert(o2[s] == order[s]);
                    assert(order[s] != x);
                }
            }
            assert forall|i: int| 0 <= i < slot1.len() && (#[trigger] slot1[i]) is Some implies o2.contains(i) by {
                if i == x {
                    assert(o2[order.len() as int] == x);
                } else {
                    assert(slot0[i] is Some);
                    let s = choose|s: int| 0 <= s < order.len() && order[s] == i;
                    assert(o2[s] == i);
                }
            }
        }
    }
}

/// Slots are numbered `0..n` without gaps or repeats.
spec fn slots_ok(slot: Seq<Option<u32>>, n: u32) -> bool {
    &&& forall|i: int| 0 <= i < slot.len() && (#[trigger] slot[i]) is Some ==> slot[i]->0 < n
    &&& forall|i: int, j: int|
        0 <= i < slot.len() && 0 <= j < slot.len() && i != j && (#[trigger] slot[i]) is Some && (#[trigger] slot[j]) is Some
            ==> slot[i] != slot[j]
    &&& forall|s: int| 0 <= s < n ==> #[trigger] slot_taken(slot, s)
    &&& n == count_some(slot)
}

/// Gives the instruction defining `v` a slot if it is defined in a chunk
/// other than `c` and has none yet.
fn mark(f: &Function, chunk_of: &Vec<u32>, slot: &mut Vec<Option<u32>>, n_slots: &mut u32, v: Value, c: u32)
    requires
        f.wf(),
        v < f.values@.len(),
        f.insts@.len() < u32::MAX,
        chunk_of@.len() == f.insts@.len(),
        old(slot)@.len() == f.insts@.len(),
        slots_ok(old(slot)@, *old(n_slots)),
    ensures
        final(slot)@.len() == f.insts@.len(),
        slots_ok(final(slot)@, *final(n_slots)),
        forall|i: int|
            0 <= i < f.insts@.len() ==> ((#[trigger] final(slot)@[i]) is Some <==> (old(slot)@[i] is Some || (
            result_of(f, v, i) && chunk_of@[i] != c))),
        // The slot given is the next number.
        ({
            let e = crossing(f, chunk_of@, v, c as int);
            &&& e.len() <= 1
            &&& e.len() == 1 ==> 0 <= e[0] < f.insts@.len()
            &&& e.len() == 1 && old(slot)@[e[0]] is None ==> final(slot)@ == old(slot)@.update(e[0], Some(*old(n_slots)))
                && *final(n_slots) == *old(n_slots) + 1
            &&& !(e.len() == 1 && old(slot)@[e[0]] is None) ==> final(slot)@ == old(slot)@ && *final(n_slots) == *old(n_slots)
        }),
{
    match f.values[v] {
        ValueData::Result { inst: i, .. } => {
            if chunk_of[i] != c && slot[i].is_none() {
                let ghost s0 = slot@;
                proof {
                    lemma_count_some_bound(s0);
                    lemma_count_some_fill(s0, i as int, *n_slots);
                }
                slot.set(i, Some(*n_slots));
                proof {
                    assert(slot@ == s0.update(i as int, Some(*old(n_slots))));
                    assert forall|s: int| 0 <= s < *old(n_slots) + 1 implies #[trigger] slot_taken(slot@, s) by {
                        if s < *old(n_slots) {
                            assert(slot_taken(s0, s));
                            let j = choose|j: int| 0 <= j < s0.len() && s0[j] == Some(s as u32);
                            assert(slot@[j] == s0[j]);
                        } else {
                            assert(slot@[i as int] == Some(s as u32));
                        }
                    }
                }
                *n_slots = *n_slots + 1;
            }
        },
        ValueData::Param { .. } => {},
    }
}

/// Plans the chunks of `f`: positions `c * chunk_size ..` of the layout
/// form chunk `c`, each instruction belongs to the chunk of its last layout
/// position, and exactly the instructions whose results cross a chunk
/// boundary get a scratch slot, numbered from zero without gaps in the
/// order in which their crossings are first met: the reads of each chunk,
/// chunk by chunk, then the returns.
#[verifier::loop_isolation(false)]
pub fn plan(f: &Function, chunk_size: usize) -> (p: ChunkPlan)
    requires
        f.wf(),
        chunk_size > 0,
        f.layout@.len() < u32::MAX,
        f.insts@.len() < u32::MAX,
    ensures
        p.n_chunks == num_chunks(f.layout@.len(), chunk_size as nat),
        p.chunk_of@.len() == f.insts@.len(),
        forall|i: int| 0 <= i < f.insts@.len() ==> p.chunk_of@[i] == #[trigger] defining_chunk(f, chunk_size as nat, i),
        p.slot@.len() == f.insts@.len(),
        forall|i: int|
            0 <= i < f.insts@.len() ==> ((#[trigger] p.slot@[i]) is Some <==> crosses(
                f,
                p.chunk_of@,
                chunk_size as nat,
                p.n_chunks - 1,
                i,
            )),
        forall|i: int| 0 <= i < f.insts@.len() && (#[trigger] p.slot@[i]) is Some ==> p.slot@[i]->0 < p.n_slots,
        forall|i: int, j: int|
            0 <= i < f.insts@.len() && 0 <= j < f.insts@.len() && i != j && (#[trigger] p.slot@[i]) is Some
                && (#[trigger] p.slot@[j]) is Some ==> p.slot@[i] != p.slot@[j],
        forall|s: int| 0 <= s < p.n_slots ==> #[trigger] slot_taken(p.slot@, s),
        // Slots are numbered in the order in which results first cross:
        // the reads position by position (first operand, then second),
        // then the returns.
        ({
            let order = first_occurrences(
                read_crossings(f, p.chunk_of@, chunk_size as nat, f.layout@.len() as int) + return_crossings(
                    f,
                    p.chunk_of@,
                    p.n_chunks - 1,
                    f.returns@.len() as int,
                ),
            );
            &&& p.n_slots == order.len()
            &&& forall|s: int| 0 <= s < order.len() ==> #[trigger] p.slot@[order[s]] == Some(s as u32)
        }),
{
    let len = f.layout.len();
    let n_chunks = if len == 0 {
        1
    } else {
        len / chunk_size + if len % chunk_size != 0 { 1 } else { 0 }
    };
    proof {
        if len > 0 {
            assert(n_chunks == (len + chunk_size - 1) / (chunk_size as int) && 1 <= n_chunks <= len) by (nonlinear_arith)
                requires
                    chunk_size > 0,
                    len > 0,
                    n_chunks == len / chunk_size + if len % chunk_size != 0 { 1int } else { 0int },
            ;
        }
    }
    let last_chunk = (n_chunks - 1) as u32;
    let ni = f.insts.len();
    let mut chunk_of: Vec<u32> = Vec::new();
    let mut slot: Vec<Option<u32>> = Vec::new();
    let mut i: usize = 0;
    while i < ni
        invariant
            ni == f.insts@.len(),
            i <= ni,
            chunk_of@.len() == i,
            slot@.len() == i,
            forall|j: int| 0 <= j < i ==> #[trigger] chunk_of@[j] == u32::MAX,
            forall|j: int| 0 <= j < i ==> #[trigger] slot@[j] is None,
        decreases ni - i,
    {
        chunk_of.push(u32::MAX);
        slot.push(None);
        i += 1;
    }
    let mut pos: usize = 0;
    while pos < len
        invariant
            f.wf(),
            len == f.layout@.len(),
            len < u32::MAX,
            chunk_size > 0,
            ni == f.insts@.len(),
            pos <= len,
            chunk_of@.len() == ni,
            forall|j: int| 0 <= j < ni ==> #[trigger] chunk_of@[j] == chunk_upto(f.layout@, chunk_size as nat, j, pos as int),
        decreases len - pos,
    {
        let inst = f.layout[pos];
        let ghost c0 = chunk_of@;
        proof {
            assert(pos / chunk_size <= pos) by (nonlinear_arith)
                requires
                    chunk_size > 0,
            ;
        }
        chunk_of.set(inst, (pos / chunk_size) as u32);
        proof {
            assert forall|j: int| 0 <= j < ni implies #[trigger] chunk_of@[j] == chunk_upto(
                f.layout@,
                chunk_size as nat,
                j,
                pos + 1,
            ) by {
                if j != inst {
                    assert(chunk_of@[j] == c0[j]);
                }
            }
        }
        pos += 1;
    }
    // Results read in another chunk, or returned from a chunk other than
    // the last, get a scratch slot.
    let mut n_slots: u32 = 0;
    proof {
        lemma_count_none(slot@);
    }
    let mut pos: usize = 0;
    while pos < len
        invariant
            f.wf(),
            len == f.layout@.len(),
            len < u32::MAX,
            chunk_size > 0,
            ni == f.insts@.len(),
            ni < u32::MAX,
            pos <= len,
            chunk_of@.len() == ni,
            slot@.len() == ni,
            slots_ok(slot@, n_slots),
            forall|i: int|
                0 <= i < ni ==> ((#[trigger] slot@[i]) is Some <==> read_across(
                    f,
                    chunk_of@,
                    chunk_size as nat,
                    i,
                    pos as int,
                )),
            slots_follow(slot@, n_slots, first_occurrences(read_crossings(f, chunk_of@, chunk_size as nat, pos as int))),
        decreases len - pos,
    {
        let inst = f.layout[pos];
        proof {
            assert(pos / chunk_size <= pos) by (nonlinear_arith)
                requires
                    chunk_size > 0,
            ;
            assert(inst < ni);
            assert(f.values@[f.results@[inst as int] as int]->inst == inst);
        }
        let c = (pos / chunk_size) as u32;
        let ghost s0 = slot@;
        let ghost ev = read_crossings(f, chunk_of@, chunk_size as nat, pos as int);
        let d = f.insts[inst];
        proof {
            assert(c as int == chunk_at(pos as int, chunk_size as nat));
        }
        match d {
            InstructionData::Unary(_, a) => {
                let ghost n0 = n_slots;
                mark(f, &chunk_of, &mut slot, &mut n_slots, a, c);
                proof {
                    lemma_follow_step(s0, n0, ev, slot@, n_slots, crossing(f, chunk_of@, a, c as int));
                }
            },
            InstructionData::Binary(_, a, b) => {
                let ghost n0 = n_slots;
                mark(f, &chunk_of, &mut slot, &mut n_slots, a, c);
                let ghost s1 = slot@;
                let ghost n1 = n_slots;
                proof {
                    lemma_follow_step(s0, n0, ev, s1, n1, crossing(f, chunk_of@, a, c as int));
                }
                mark(f, &chunk_of, &mut slot, &mut n_slots, b, c);
                proof {
                    let ea = crossing(f, chunk_of@, a, c as int);
                    let eb = crossing(f, chunk_of@, b, c as int);
                    lemma_follow_step(s1, n1, ev + ea, slot@, n_slots, eb);
                    assert(ev + ea + eb =~= ev + (ea + eb));
                }
            },
            _ => {
                proof {
                    assert(ev + Seq::<int>::empty() =~= ev);
                }
            },
        }
        proof {
            assert(read_crossings(f, chunk_of@, chunk_size as nat, pos + 1) == ev + match f.insts@[f.layout@[pos as int] as int] {
                InstructionData::Unary(_, a) => crossing(f, chunk_of@, a, c as int),
                InstructionData::Binary(_, a, b) => crossing(f, chunk_of@, a, c as int) + crossing(f, chunk_of@, b, c as int),
                _ => Seq::empty(),
            });
        }
        proof {
            assert forall|i: int| 0 <= i < ni implies ((#[trigger] slot@[i]) is Some <==> read_across(
                f,
                chunk_of@,
                chunk_size as nat,
                i,
                pos + 1,
            )) by {
                if slot@[i] is Some {
                    if s0[i] is Some {
                        let (q, v) = choose|q: int, v: Value|
                            0 <= q < pos && #[trigger] reads(f.insts@[f.layout@[q] as int], v) && result_of(f, v, i)
                                && chunk_of@[i] != chunk_at(q, chunk_size as nat);
                        assert(reads(f.insts@[f.layout@[q] as int], v));
                    } else {
                        match d {
                            InstructionData::Unary(_, a) => {
                                assert(reads(f.insts@[f.layout@[pos as int] as int], a));
                            },
                            InstructionData::Binary(_, a, b) => {
                                assert(reads(f.insts@[f.layout@[pos as int] as int], a));
                                assert(reads(f.insts@[f.layout@[pos as int] as int], b));
                            },
                            _ => {},
                        }
                    }
                }
                if read_across(f, chunk_of@, chunk_size as nat, i, pos + 1) {
                    let (q, v) = choose|q: int, v: Value|
                        0 <= q < pos + 1 && #[trigger] reads(f.insts@[f.layout@[q] as int], v) && result_of(f, v, i)
                            && chunk_of@[i] != chunk_at(q, chunk_size as nat);
                    if q < pos {
                        assert(read_across(f, chunk_of@, chunk_size as nat, i, pos as int));
                    }
                }
            }
        }
        pos += 1;
    }
    let last_chunk = (n_chunks - 1) as u32;
    let nr = f.returns.len();
    let mut k: usize = 0;
    while k < nr
        invariant
            f.wf(),
            nr == f.returns@.len(),
            len == f.layout@.len(),
            chunk_size > 0,
            ni == f.insts@.len(),
            ni < u32::MAX,
            last_chunk == n_chunks - 1,
            k <= nr,
            chunk_of@.len() == ni,
            slot@.len() == ni,
            slots_ok(slot@, n_slots),
            forall|i: int|
                0 <= i < ni ==> ((#[trigger] slot@[i]) is Some <==> (read_across(
                    f,
                    chunk_of@,
                    chunk_size as nat,
                    i,
                    len as int,
                ) || returned_across(f, chunk_of@, last_chunk as int, i, k as int))),
            slots_follow(
                slot@,
                n_slots,
                first_occurrences(
                    read_crossings(f, chunk_of@, chunk_size as nat, len as int) + return_crossings(
                        f,
                        chunk_of@,
                        last_chunk as int,
                        k as int,
                    ),
                ),
            ),
        decreases nr - k,
    {
        let r = f.returns[k];
        let ghost s0 = slot@;
        let ghost n0 = n_slots;
        mark(f, &chunk_of, &mut slot, &mut n_slots, r, last_chunk);
        proof {
            let rc = read_crossings(f, chunk_of@, chunk_size as nat, len as int);
            let x = crossing(f, chunk_of@, r, last_chunk as int);
            lemma_follow_step(s0, n0, rc + return_crossings(f, chunk_of@, last_chunk as int, k as int), slot@, n_slots, x);
            assert(rc + return_crossings(f, chunk_of@, last_chunk as int, k as int) + x =~= rc + return_crossings(
                f,
                chunk_of@,
                last_chunk as int,
                k + 1,
            ));
        }
        proof {
            assert forall|i: int| 0 <= i < ni implies ((#[trigger] slot@[i]) is Some <==> (read_across(
                f,
                chunk_of@,
                chunk_size as nat,
                i,
                len as int,
            ) || returned_across(f, chunk_of@, last_chunk as int, i, k + 1))) by {
                if returned_across(f, chunk_of@, last_chunk as int, i, k + 1) {
                    let q = choose|q: int|
                        0 <= q < k + 1 && result_of(f, #[trigger] f.returns@[q], i) && chunk_of@[i] != last_chunk;
                    if q < k {
                        assert(returned_across(f, chunk_of@, last_chunk as int, i, k as int));
                    }
                }
                if slot@[i] is Some && s0[i] is None {
                    assert(result_of(f, f.returns@[k as int], i));
                }
            }
        }
        k += 1;
    }
    proof {
        assert(return_crossings(f, chunk_of@, last_chunk as int, 0) =~= Seq::<int>::empty());
    }
    ChunkPlan { n_chunks, chunk_of, slot, n_slots }
}

} // verus!
