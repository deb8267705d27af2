//! What the printer of the IR computes: the names of the opcodes, and how
//! many values are live across each line of the layout.
use vstd::prelude::*;

use crate::ir::chunk::last_pos;
use crate::ir::function::{Function, Inst, InstructionData, Value};
use crate::op::{BinaryOp, UnaryOp};

verus! {

pub fn unary_name(o: UnaryOp) -> (r: &'static str)
    ensures
        r@ == (match o {
            UnaryOp::Neg => "neg"@,
            UnaryOp::Sin => "sin"@,
            UnaryOp::Cos => "cos"@,
        }),
{
    match o {
        UnaryOp::Neg => "neg",
        UnaryOp::Sin => "sin",
        UnaryOp::Cos => "cos",
    }
}

pub fn binary_name(o: BinaryOp) -> (r: &'static str)
    ensures
        r@ == (match o {
            BinaryOp::Add => "add"@,
            BinaryOp::Sub => "sub"@,
            BinaryOp::Div => "div"@,
            BinaryOp::Mul => "mul"@,
        }),
{
    match o {
        BinaryOp::Add => "add",
        BinaryOp::Sub => "sub",
        BinaryOp::Div => "div",
        BinaryOp::Mul => "mul",
    }
}


/// The values instruction `d` reads.
pub open spec fn args_of(d: InstructionData) -> Seq<Value> {
    match d {
        InstructionData::Constant(_) => seq![],
        InstructionData::Unary(_, a) => seq![a],
        InstructionData::Binary(_, a, b) => seq![a, b],
        InstructionData::Broadcast(a, _, _) => seq![a],
        InstructionData::Reduce(_, a, _) => seq![a],
    }
}

fn args(d: InstructionData) -> (r: Vec<Value>)
    ensures
        r@ == args_of(d),
{
    let mut r: Vec<Value> = Vec::new();
    match d {
        InstructionData::Constant(_) => {},
        InstructionData::Unary(_, a) => {
            r.push(a);
        },
        InstructionData::Binary(_, a, b) => {
            r.push(a);
            r.push(b);
        },
        InstructionData::Broadcast(a, _, _) => {
            r.push(a);
        },
        InstructionData::Reduce(_, a, _) => {
            r.push(a);
        },
    }
    proof {
        assert(r@ =~= args_of(d));
    }
    r
}

/// Value `v` is the result of instruction `j`.
pub open spec fn is_result_of(f: &Function, v: Value, j: int) -> bool {
    v < f.values@.len() && f.values@[v as int] is Result && f.values@[v as int]->inst == j
}

/// The last layout position before `upto` whose instruction reads the
/// result of instruction `j`, or -1.
pub open spec fn last_read(f: &Function, j: int, upto: int) -> int
    decreases upto,
{
    if upto <= 0 || upto > f.layout@.len() {
        -1
    } else if exists|a: int|
        0 <= a < args_of(f.insts@[f.layout@[upto - 1] as int]).len() && #[trigger] is_result_of(
            f,
            args_of(f.insts@[f.layout@[upto - 1] as int])[a],
            j,
        ) {
        upto - 1
    } else {
        last_read(f, j, upto - 1)
    }
}

/// The last use of the result of instruction `j`: past the layout if it
/// is returned, else its last read, else -1.
pub open spec fn last_use(f: &Function, j: int) -> int {
    if exists|k: int| 0 <= k < f.returns@.len() && #[trigger] is_result_of(f, f.returns@[k], j) {
        f.layout@.len() as int
    } else {
        last_read(f, j, f.layout@.len() as int)
    }
}

/// The line of instruction `i`: its last position in the layout.
pub open spec fn line_of(f: &Function, i: int) -> int {
    last_pos(f.layout@, i, f.layout@.len() as int)
}

/// Among the first `upto` lines, those whose instruction is defined at or
/// before line `p` and used after it.
pub open spec fn live_upto(f: &Function, p: int, upto: int) -> nat
    decreases upto,
{
    if upto <= 0 {
        0
    } else {
        live_upto(f, p, upto - 1) + if line_of(f, f.layout@[upto - 1] as int) <= p && last_use(
            f,
            f.layout@[upto - 1] as int,
        ) > p {
            1nat
        } else {
            0nat
        }
    }
}

proof fn lemma_last_pos_bounds(layout: Seq<usize>, i: int, upto: int, q: int)
    requires
        0 <= q < upto <= layout.len(),
        layout[q] == i,
    ensures
        q <= last_pos(layout, i, upto) < upto,
    decreases upto,
{
    if layout[upto - 1] != i {
        lemma_last_pos_bounds(layout, i, upto - 1, q);
    }
}

proof fn lemma_last_read_bound(f: &Function, j: int, upto: int)
    ensures
        last_read(f, j, upto) < upto || last_read(f, j, upto) == -1,
        last_read(f, j, upto) >= -1,
    decreases upto,
{
    if 0 < upto <= f.layout@.len() {
        lemma_last_read_bound(f, j, upto - 1);
    }
}

proof fn lemma_live_upto_bound(f: &Function, p: int, upto: int)
    requires
        0 <= upto,
    ensures
        live_upto(f, p, upto) <= upto,
    decreases upto,
{
    if upto > 0 {
        lemma_live_upto_bound(f, p, upto - 1);
    }
}

/// For each line of the layout, how many values are live across it: the
/// instructions of the layout defined at or before the line whose result
/// is used after it (a return counts as a use past the last line).
pub fn live_counts(f: &Function) -> (r: Vec<usize>)
    requires
        f.wf(),
    ensures
        r@.len() == f.layout@.len(),
        forall|p: int| 0 <= p < r@.len() ==> #[trigger] r@[p] == live_upto(f, p, f.layout@.len() as int),
{
    let n = f.layout.len();
    let ni = f.insts.len();
    // The line of each instruction: its last position.
    let mut pos: Vec<Option<usize>> = Vec::new();
    let mut i: usize = 0;
    while i < ni
        invariant
            i <= ni,
            ni == f.insts@.len(),
            pos@.len() == i,
            forall|j: int| 0 <= j < i ==> #[trigger] pos@[j] is None,
        decreases ni - i,
    {
        pos.push(None);
        i += 1;
    }
    let mut p: usize = 0;
    while p < n
        invariant
            f.wf(),
            n == f.layout@.len(),
            ni == f.insts@.len(),
            p <= n,
            pos@.len() == ni,
            forall|j: int|
                0 <= j < ni ==> #[trigger] pos@[j] == if last_pos(f.layout@, j, p as int) < 0 {
                    None::<usize>
                } else {
                    Some(last_pos(f.layout@, j, p as int) as usize)
                },
        decreases n - p,
    {
        let inst = f.layout[p];
        let ghost p0 = pos@;
        pos.set(inst, Some(p));
        proof {
            assert forall|j: int| 0 <= j < ni implies #[trigger] pos@[j] == if last_pos(f.layout@, j, p + 1) < 0 {
                None::<usize>
            } else {
                Some(last_pos(f.layout@, j, p + 1) as usize)
            } by {
                if j != inst {
                    assert(pos@[j] == p0[j]);
                }
            }
        }
        p += 1;
    }
    // The last read of each result, then the returns.
    let mut last: Vec<Option<usize>> = Vec::new();
    let mut i: usize = 0;
    while i < ni
        invariant
            i <= ni,
            ni == f.insts@.len(),
            last@.len() == i,
            forall|j: int| 0 <= j < i ==> #[trigger] last@[j] is None,
        decreases ni - i,
    {
        last.push(None);
        i += 1;
    }
    let mut p: usize = 0;
    while p < n
        invariant
            f.wf(),
            n == f.layout@.len(),
            ni == f.insts@.len(),
            p <= n,
            last@.len() == ni,
            forall|j: int|
                0 <= j < ni ==> #[trigger] last@[j] == if last_read(f, j, p as int) < 0 {
                    None::<usize>
                } else {
                    Some(last_read(f, j, p as int) as usize)
                },
        decreases n - p,
    {
        let inst = f.layout[p];
        let a = args(f.insts[inst]);
        let ghost l0 = last@;
        let mut q: usize = 0;
        while q < a.len()
            invariant
                f.wf(),
                n == f.layout@.len(),
                ni == f.insts@.len(),
                p < n,
                inst == f.layout@[p as int],
                a@ == args_of(f.insts@[inst as int]),
                q <= a@.len(),
                last@.len() == ni,
                forall|j: int|
                    0 <= j < ni ==> #[trigger] last@[j] == if exists|a2: int| 0 <= a2 < q && #[trigger] is_result_of(f, a@[a2], j) {
                        Some(p)
                    } else {
                        l0[j]
                    },
            decreases a@.len() - q,
        {
            let v = a[q];
            proof {
                assert(inst < ni);
                assert(f.values@[f.results@[inst as int] as int] is Result);
            }
            if v < f.values.len() {
                match f.values[v] {
                    crate::ir::function::ValueData::Result { inst: j, .. } => {
                        let ghost l1 = last@;
                        last.set(j, Some(p));
                        proof {
                            assert forall|j2: int| 0 <= j2 < ni implies #[trigger] last@[j2] == if exists|a2: int|
                                0 <= a2 < q + 1 && #[trigger] is_result_of(f, a@[a2], j2) {
                                Some(p)
                            } else {
                                l0[j2]
                            } by {
                                if j2 != j {
                                    assert(last@[j2] == l1[j2]);
                                    if exists|a2: int| 0 <= a2 < q + 1 && #[trigger] is_result_of(f, a@[a2], j2) {
                                        let a2 = choose|a2: int| 0 <= a2 < q + 1 && #[trigger] is_result_of(f, a@[a2], j2);
                                        assert(a2 != q);
                                    }
                                } else {
                                    assert(is_result_of(f, a@[q as int], j2));
                                }
                            }
                        }
                    },
                    _ => {
                        proof {
                            assert forall|j2: int| 0 <= j2 < ni implies #[trigger] last@[j2] == if exists|a2: int|
                                0 <= a2 < q + 1 && #[trigger] is_result_of(f, a@[a2], j2) {
                                Some(p)
                            } else {
                                l0[j2]
                            } by {
                                if exists|a2: int| 0 <= a2 < q + 1 && #[trigger] is_result_of(f, a@[a2], j2) {
                                    let a2 = choose|a2: int| 0 <= a2 < q + 1 && #[trigger] is_result_of(f, a@[a2], j2);
                                    assert(a2 != q);
                                }
                            }
                        }
                    },
                }
            } else {
                proof {
                    assert forall|j2: int| 0 <= j2 < ni implies #[trigger] last@[j2] == if exists|a2: int|
                        0 <= a2 < q + 1 && #[trigger] is_result_of(f, a@[a2], j2) {
                        Some(p)
                    } else {
                        l0[j2]
                    } by {
                        if exists|a2: int| 0 <= a2 < q + 1 && #[trigger] is_result_of(f, a@[a2], j2) {
                            let a2 = choose|a2: int| 0 <= a2 < q + 1 && #[trigger] is_result_of(f, a@[a2], j2);
                            assert(a2 != q);
                        }
                    }
                }
            }
            q += 1;
        }
        p += 1;
    }
    let mut k: usize = 0;
    while k < f.returns.len()
        invariant
            f.wf(),
            n == f.layout@.len(),
            ni == f.insts@.len(),
            k <= f.returns@.len(),
            last@.len() == ni,
            forall|j: int|
                0 <= j < ni ==> #[trigger] last@[j] == if exists|k2: int|
                    0 <= k2 < k && #[trigger] is_result_of(f, f.returns@[k2], j) {
                    Some(n)
                } else if last_read(f, j, n as int) < 0 {
                    None::<usize>
                } else {
                    Some(last_read(f, j, n as int) as usize)
                },
        decreases f.returns@.len() - k,
    {
        let r = f.returns[k];
        let ghost l0 = last@;
        match f.values[r] {
            crate::ir::function::ValueData::Result { inst: j, .. } => {
                proof {
                    assert(f.results@[f.values@[r as int]->inst as int] == r);
                }
                last.set(j, Some(n));
                proof {
                    assert forall|j2: int| 0 <= j2 < ni implies #[trigger] last@[j2] == if exists|k2: int|
                        0 <= k2 < k + 1 && #[trigger] is_result_of(f, f.returns@[k2], j2) {
                        Some(n)
                    } else if last_read(f, j2, n as int) < 0 {
                        None::<usize>
                    } else {
                        Some(last_read(f, j2, n as int) as usize)
                    } by {
                        if j2 != j {
                            assert(last@[j2] == l0[j2]);
                            if exists|k2: int| 0 <= k2 < k + 1 && #[trigger] is_result_of(f, f.returns@[k2], j2) {
                                let k2 = choose|k2: int| 0 <= k2 < k + 1 && #[trigger] is_result_of(f, f.returns@[k2], j2);
                                assert(k2 != k);
                            }
                        } else {
                            assert(is_result_of(f, f.returns@[k as int], j2));
                        }
                    }
                }
            },
            _ => {
                proof {
                    assert forall|j2: int| 0 <= j2 < ni implies #[trigger] last@[j2] == if exists|k2: int|
                        0 <= k2 < k + 1 && #[trigger] is_result_of(f, f.returns@[k2], j2) {
                        Some(n)
                    } else if last_read(f, j2, n as int) < 0 {
                        None::<usize>
                    } else {
                        Some(last_read(f, j2, n as int) as usize)
                    } by {
                        if exists|k2: int| 0 <= k2 < k + 1 && #[trigger] is_result_of(f, f.returns@[k2], j2) {
                            let k2 = choose|k2: int| 0 <= k2 < k + 1 && #[trigger] is_result_of(f, f.returns@[k2], j2);
                            assert(k2 != k);
                        }
                    }
                }
            },
        }
        k += 1;
    }
    // Count, for each line, the layout entries live across it.
    let mut counts: Vec<usize> = Vec::new();
    let mut p: usize = 0;
    while p < n
        invariant
            f.wf(),
            n == f.layout@.len(),
            ni == f.insts@.len(),
            p <= n,
            pos@.len() == ni,
            last@.len() == ni,
            forall|j: int|
                0 <= j < ni ==> #[trigger] pos@[j] == if line_of(f, j) < 0 {
                    None::<usize>
                } else {
                    Some(line_of(f, j) as usize)
                },
            forall|j: int|
                0 <= j < ni ==> #[trigger] last@[j] == if last_use(f, j) < 0 {
                    None::<usize>
                } else {
                    Some(last_use(f, j) as usize)
                },
            counts@.len() == p,
            forall|p2: int| 0 <= p2 < p ==> #[trigger] counts@[p2] == live_upto(f, p2, n as int),
        decreases n - p,
    {
        let mut c: usize = 0;
        let mut q: usize = 0;
        while q < n
            invariant
                f.wf(),
                n == f.layout@.len(),
                ni == f.insts@.len(),
                p < n,
                q <= n,
                pos@.len() == ni,
                last@.len() == ni,
                forall|j: int|
                    0 <= j < ni ==> #[trigger] pos@[j] == if line_of(f, j) < 0 {
                        None::<usize>
                    } else {
                        Some(line_of(f, j) as usize)
                    },
                forall|j: int|
                    0 <= j < ni ==> #[trigger] last@[j] == if last_use(f, j) < 0 {
                        None::<usize>
                    } else {
                        Some(last_use(f, j) as usize)
                    },
                c == live_upto(f, p as int, q as int),
            decreases n - q,
        {
            let i = f.layout[q];
            proof {
                lemma_live_upto_bound(f, p as int, q as int);
                assert(i < ni);
                lemma_last_pos_bounds(f.layout@, i as int, n as int, q as int);
                lemma_last_read_bound(f, i as int, n as int);
            }
            let defined = match pos[i] {
                Some(d) => d <= p,
                None => false,
            };
            let used_after = match last[i] {
                Some(l) => l > p,
                None => false,
            };
            proof {
                assert(defined == (line_of(f, i as int) <= p));
                assert(used_after == (last_use(f, i as int) > p));
            }
            if defined && used_after {
                c += 1;
            }
            q += 1;
        }
        counts.push(c);
        p += 1;
    }
    counts
}

} // verus!
