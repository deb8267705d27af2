//! Functions of the IR: an arena of instructions and values, a layout
//! giving the order of execution, parameters and returns.
use vstd::prelude::*;

use crate::bits::Bits64;
use crate::function::{bin, un, zero_sym, Sym};
use crate::ir::ty::{DimMap, DimSet, Ty, TyData};
use crate::op::{BinaryOp, ReduceOp, UnaryOp};

verus! {

/// Index of a value of a function.
pub type Value = usize;

/// Index of an instruction of a function.
pub type Inst = usize;

#[derive(Clone, Copy, PartialEq, Eq, Hash, Debug, Structural)]
pub enum ValueData {
    /// The value is the result of an instruction.
    Result { ty: Ty, inst: Inst },
    /// The value is a parameter of the function.
    Param { ty: Ty, num: u16 },
}

impl ValueData {
    pub open spec fn spec_ty(self) -> Ty {
        match self {
            ValueData::Result { ty, .. } => ty,
            ValueData::Param { ty, .. } => ty,
        }
    }

    pub fn ty(&self) -> (r: Ty)
        ensures
            r == self.spec_ty(),
    {
        match self {
            ValueData::Result { ty, inst: _ } => *ty,
            ValueData::Param { ty, num: _ } => *ty,
        }
    }
}

#[derive(Clone, Copy, PartialEq, Eq, Hash, Debug)]
pub enum InstructionData {
    /// A constant move: `x <- c`.
    Constant(Bits64),
    /// A unary expression, e.g. `x <- sin(a)`.
    Unary(UnaryOp, Value),
    /// A binary expression, e.g. `x <- a + b`.
    Binary(BinaryOp, Value, Value),
    /// Broadcasts the argument to the target type by Numpy's rules.
    Broadcast(Value, Ty, DimMap),
    /// Reduces over the given dimensions.
    Reduce(ReduceOp, Value, DimSet),
}

/// The elementwise instructions, whose result types this IR computes.
pub open spec fn is_elementwise(d: InstructionData) -> bool {
    d is Constant || d is Unary || d is Binary
}

/// Every operand of `d` is below `v`.
pub open spec fn operands_below(d: InstructionData, v: int) -> bool {
    match d {
        InstructionData::Constant(_) => true,
        InstructionData::Unary(_, a) => a < v,
        InstructionData::Binary(_, a, b) => a < v && b < v,
        InstructionData::Broadcast(a, _, _) => a < v,
        InstructionData::Reduce(_, a, _) => a < v,
    }
}

/// No type is interned twice.
pub open spec fn types_distinct(types: Seq<TyData>) -> bool {
    forall|i: int, j: int| 0 <= i < j < types.len() ==> types[i] != types[j]
}

#[derive(Clone)]
pub struct Function {
    /// Program instructions.
    pub insts: Vec<InstructionData>,
    /// The result of each instruction.
    pub results: Vec<Value>,
    /// The type and definition of each value.
    pub values: Vec<ValueData>,
    /// Program types, each interned once (see `intern_ty`).
    pub types: Vec<TyData>,
    /// Instructions in order of execution.
    pub layout: Vec<Inst>,
    /// Function arguments.
    pub params: Vec<Value>,
    /// Function return values.
    pub returns: Vec<Value>,
}

/// What value `v` computes, over the parameters numbered as declared.
pub open spec fn value_sym(values: Seq<ValueData>, insts: Seq<InstructionData>, v: int) -> Sym
    decreases v,
{
    if v < 0 || v >= values.len() {
        zero_sym()
    } else {
        match values[v] {
            ValueData::Param { num, .. } => Sym::Param(num as u32),
            ValueData::Result { inst, .. } => if 0 <= inst < insts.len() {
                match insts[inst as int] {
                    InstructionData::Constant(c) => Sym::Const(c),
                    InstructionData::Unary(op, a) => if a < v {
                        un(op, value_sym(values, insts, a as int))
                    } else {
                        zero_sym()
                    },
                    InstructionData::Binary(op, a, b) => if a < v && b < v {
                        bin(op, value_sym(values, insts, a as int), value_sym(values, insts, b as int))
                    } else {
                        zero_sym()
                    },
                    _ => zero_sym(),
                }
            } else {
                zero_sym()
            },
        }
    }
}

impl Function {
    pub open spec fn spec_types(&self) -> Seq<TyData> {
        self.types@
    }

    /// Values, instructions and types refer to each other consistently:
    /// each value has an interned type, each result value names the
    /// instruction that defines it and comes after that instruction's
    /// operands, parameters are numbered by position, and layout and
    /// returns name instructions and values.
    pub open spec fn wf(&self) -> bool {
        &&& types_distinct(self.spec_types())
        &&& self.results@.len() == self.insts@.len()
        &&& forall|i: int|
            0 <= i < self.insts@.len() ==> #[trigger] self.results@[i] < self.values@.len()
                && self.values@[self.results@[i] as int] is Result
                && self.values@[self.results@[i] as int]->inst == i
        &&& forall|v: int|
            0 <= v < self.values@.len() ==> (#[trigger] self.values@[v]).spec_ty() < self.spec_types().len()
        &&& forall|v: int|
            0 <= v < self.values@.len() && (#[trigger] self.values@[v]) is Result ==> self.values@[v]->inst
                < self.insts@.len() && self.results@[self.values@[v]->inst as int] == v && operands_below(
                self.insts@[self.values@[v]->inst as int],
                v,
            )
        &&& forall|k: int|
            0 <= k < self.params@.len() ==> #[trigger] self.params@[k] < self.values@.len()
                && self.values@[self.params@[k] as int] is Param
                && self.values@[self.params@[k] as int]->num == k
        &&& forall|p: int| 0 <= p < self.layout@.len() ==> #[trigger] self.layout@[p] < self.insts@.len()
        &&& forall|k: int| 0 <= k < self.returns@.len() ==> #[trigger] self.returns@[k] < self.values@.len()
    }

    /// What value `v` computes.
    pub open spec fn sym(&self, v: int) -> Sym {
        value_sym(self.values@, self.insts@, v)
    }

    /// The type data of value `v`.
    pub open spec fn value_ty_data(&self, v: int) -> TyData {
        self.spec_types()[self.values@[v].spec_ty() as int]
    }

    /// A function of parameters of the given types, with no instructions.
    pub fn new(param_tys: &[TyData]) -> (f: Function)
        requires
            param_tys@.len() <= 0x1_0000,
        ensures
            f.wf(),
            f.insts@.len() == 0,
            f.layout@.len() == 0,
            f.returns@.len() == 0,
            f.params@.len() == param_tys@.len(),
            forall|k: int|
                0 <= k < param_tys@.len() ==> #[trigger] f.value_ty_data(f.params@[k] as int) == param_tys@[k],
    {
        let mut f = Function {
            insts: Vec::new(),
            results: Vec::new(),
            values: Vec::new(),
            types: Vec::new(),
            layout: Vec::new(),
            params: Vec::new(),
            returns: Vec::new(),
        };
        let mut num: usize = 0;
        while num < param_tys.len()
            invariant
                param_tys@.len() <= 0x1_0000,
                num <= param_tys@.len(),
                f.wf(),
                f.insts@.len() == 0,
                f.layout@.len() == 0,
                f.returns@.len() == 0,
                f.params@.len() == num,
                f.values@.len() == num,
                f.params@ == Seq::new(num as nat, |k: int| k as Value),
                forall|k: int|
                    0 <= k < num ==> #[trigger] f.value_ty_data(f.params@[k] as int) == param_tys@[k],
            decreases param_tys@.len() - num,
        {
            let ghost p0 = f.params@;
            let ghost v0 = f.values@;
            let ghost t0 = f.spec_types();
            let ghost f0 = f;
            let ty = f.intern_ty(param_tys[num]);
            let v = f.values.len();
            f.values.push(ValueData::Param { ty, num: num as u16 });
            f.params.push(v);
            proof {
                assert forall|k: int|
                    0 <= k < num + 1 implies #[trigger] f.value_ty_data(f.params@[k] as int) == param_tys@[k] by {
                    if k < num {
                        assert(f.params@[k] == p0[k]);
                        assert(f.values@[p0[k] as int] == v0[p0[k] as int]);
                        assert(v0[p0[k] as int].spec_ty() < t0.len());
                        assert(f.spec_types()[v0[p0[k] as int].spec_ty() as int] == t0[v0[p0[k] as int].spec_ty() as int]);
                        assert(f0.value_ty_data(f0.params@[k] as int) == param_tys@[k]);
                    } else {
                        assert(f.params@[k] == v);
                        assert(f.values@[v as int] == ValueData::Param { ty, num: num as u16 });
                    }
                }
            }
            num += 1;
        }
        f
    }

    pub fn inst_data(&self, i: Inst) -> (r: InstructionData)
        requires
            i < self.insts@.len(),
        ensures
            r == self.insts@[i as int],
    {
        self.insts[i]
    }

    pub fn inst_result(&self, i: Inst) -> (r: Value)
        requires
            i < self.results@.len(),
        ensures
            r == self.results@[i as int],
    {
        self.results[i]
    }

    pub fn args(&self) -> (r: &[Value])
        ensures
            r@ == self.params@,
    {
        self.params.as_slice()
    }

    pub fn num_params(&self) -> (r: usize)
        ensures
            r == self.params@.len(),
    {
        self.params.len()
    }

    pub fn layout(&self) -> (r: &[Inst])
        ensures
            r@ == self.layout@,
    {
        self.layout.as_slice()
    }

    /// The type of `func`'s type `ty` in this function.
    pub fn import_ty(&mut self, func: &Function, ty: Ty) -> (r: Ty)
        requires
            old(self).wf(),
            ty < func.spec_types().len(),
        ensures
            final(self).wf(),
            final(self).spec_types()[r as int] == func.spec_types()[ty as int],
            r < final(self).spec_types().len(),
            old(self).spec_types().is_prefix_of(final(self).spec_types()),
            final(self).insts@ == old(self).insts@,
            final(self).values@ == old(self).values@,
            final(self).results@ == old(self).results@,
            final(self).layout@ == old(self).layout@,
            final(self).params@ == old(self).params@,
            final(self).returns@ == old(self).returns@,
    {
        let td = func.ty_data(ty);
        self.intern_ty(td)
    }

    /// The index of `td`, added if it is new.
    pub fn intern_ty(&mut self, td: TyData) -> (r: Ty)
        requires
            old(self).wf(),
        ensures
            final(self).wf(),
            r < final(self).spec_types().len(),
            final(self).spec_types()[r as int] == td,
            old(self).spec_types().contains(td) ==> final(self).spec_types() == old(self).spec_types(),
            !old(self).spec_types().contains(td) ==> final(self).spec_types() == old(self).spec_types().push(
                td,
            ),
            final(self).insts@ == old(self).insts@,
            final(self).values@ == old(self).values@,
            final(self).results@ == old(self).results@,
            final(self).layout@ == old(self).layout@,
            final(self).params@ == old(self).params@,
            final(self).returns@ == old(self).returns@,
    {
        let mut i: usize = 0;
        while i < self.types.len()
            invariant
                *self == *old(self),
                old(self).wf(),
                i <= self.types@.len(),
                forall|j: int| 0 <= j < i ==> self.types@[j] != td,
            decreases self.types@.len() - i,
        {
            if self.types[i].same(&td) {
                return i;
            }
            i += 1;
        }
        let t = self.types.len();
        self.types.push(td);
        proof {
            assert(!old(self).spec_types().contains(td));
        }
        t
    }

    pub fn ty_data(&self, ty: Ty) -> (r: TyData)
        requires
            ty < self.spec_types().len(),
        ensures
            r == self.spec_types()[ty as int],
    {
        self.types[ty]
    }

    pub fn value_ty(&self, v: Value) -> (r: Ty)
        requires
            v < self.values@.len(),
        ensures
            r == self.values@[v as int].spec_ty(),
    {
        self.values[v].ty()
    }

    /// The type of the result of an elementwise instruction: a constant is
    /// a scalar, a unary operation has the type of its operand, and a
    /// binary operation that of its operands, refused with both operand
    /// types where they differ.
    fn result_ty(&mut self, d: InstructionData) -> (r: Result<Ty, (TyData, TyData)>)
        requires
            old(self).wf(),
            is_elementwise(d),
            operands_below(d, old(self).values@.len() as int),
        ensures
            final(self).wf(),
            old(self).spec_types().is_prefix_of(final(self).spec_types()),
            final(self).insts@ == old(self).insts@,
            final(self).values@ == old(self).values@,
            final(self).results@ == old(self).results@,
            final(self).layout@ == old(self).layout@,
            final(self).params@ == old(self).params@,
            final(self).returns@ == old(self).returns@,
            match d {
                InstructionData::Constant(_) => r matches Ok(t) && t < final(self).spec_types().len()
                    && final(self).spec_types()[t as int] == TyData::spec_scalar(),
                InstructionData::Unary(_, a) => r == Ok::<Ty, (TyData, TyData)>(old(self).values@[a as int].spec_ty()),
                InstructionData::Binary(_, a, b) => if old(self).values@[a as int].spec_ty() == old(
                    self,
                ).values@[b as int].spec_ty() {
                    r == Ok::<Ty, (TyData, TyData)>(old(self).values@[a as int].spec_ty())
                } else {
                    r == Err::<Ty, (TyData, TyData)>((old(self).value_ty_data(a as int), old(self).value_ty_data(b as int)))
                },
                _ => true,
            },
    {
        match d {
            InstructionData::Constant(_) => {
                let t = self.intern_ty(TyData::scalar());
                proof {
                    if old(self).spec_types().contains(TyData::spec_scalar()) {
                        assert(self.spec_types() == old(self).spec_types());
                    }
                }
                Ok(t)
            },
            InstructionData::Unary(_, a) => Ok(self.value_ty(a)),
            InstructionData::Binary(_, a, b) => {
                let (ta, tb) = (self.value_ty(a), self.value_ty(b));
                if ta != tb {
                    return Err((self.ty_data(ta), self.ty_data(tb)));
                }
                Ok(ta)
            },
            // Not elementwise: excluded by the precondition.
            _ => Err((TyData::scalar(), TyData::scalar())),
        }
    }

    /// Appends `d` to the instructions and the layout, and returns the value
    /// it defines. A constant is a scalar; a unary or binary operation has
    /// the type of its operands, which must agree.
    pub fn emit(&mut self, d: InstructionData) -> (v: Value)
        requires
            old(self).wf(),
            is_elementwise(d),
            operands_below(d, old(self).values@.len() as int),
            d matches InstructionData::Binary(_, a, b) ==> old(self).values@[a as int].spec_ty()
                == old(self).values@[b as int].spec_ty(),
        ensures
            final(self).wf(),
            v == old(self).values@.len(),
            final(self).insts@ == old(self).insts@.push(d),
            final(self).layout@ == old(self).layout@.push(old(self).insts@.len() as Inst),
            final(self).results@ == old(self).results@.push(v),
            final(self).values@.len() == v + 1,
            forall|w: int| 0 <= w < v ==> #[trigger] final(self).values@[w] == old(self).values@[w],
            final(self).values@[v as int] is Result,
            final(self).values@[v as int]->inst == old(self).insts@.len(),
            old(self).spec_types().is_prefix_of(final(self).spec_types()),
            final(self).params@ == old(self).params@,
            final(self).returns@ == old(self).returns@,
            match d {
                InstructionData::Constant(_) => final(self).value_ty_data(v as int) == TyData::spec_scalar(),
                InstructionData::Unary(_, a) => final(self).values@[v as int].spec_ty()
                    == old(self).values@[a as int].spec_ty(),
                InstructionData::Binary(_, a, _) => final(self).values@[v as int].spec_ty()
                    == old(self).values@[a as int].spec_ty(),
                _ => true,
            },
    {
        let ty = self.result_ty(d).expect("emit: type error");
        let ghost types0 = self.types@;
        let inst = self.insts.len();
        self.insts.push(d);
        let v = self.values.len();
        self.values.push(ValueData::Result { ty, inst });
        self.results.push(v);
        self.layout.push(inst);
        proof {
            assert(types0.is_prefix_of(self.spec_types()));
            assert(old(self).spec_types().is_prefix_of(types0));
            assert forall|i: int| 0 <= i < self.insts@.len() implies #[trigger] self.results@[i]
                < self.values@.len() && self.values@[self.results@[i] as int] is Result
                && self.values@[self.results@[i] as int]->inst == i by {
                if i < inst {
                    assert(self.results@[i] == old(self).results@[i]);
                }
            }
            assert forall|w: int|
                0 <= w < self.values@.len() && (#[trigger] self.values@[w]) is Result implies self.values@[w]->inst
                < self.insts@.len() && self.results@[self.values@[w]->inst as int] == w && operands_below(
                self.insts@[self.values@[w]->inst as int],
                w,
            ) by {
                if w < v {
                    assert(self.values@[w] == old(self).values@[w]);
                    assert(self.insts@[self.values@[w]->inst as int] == old(self).insts@[old(
                        self,
                    ).values@[w]->inst as int]);
                }
            }
        }
        v
    }
}


/// Value `v` of `f` is the constant zero, or a broadcast of it.
pub open spec fn is_zero_value(f: &Function, v: int) -> bool {
    &&& f.values@[v] is Result
    &&& match f.insts@[f.values@[v]->inst as int] {
        InstructionData::Constant(c) => c == Bits64(0),
        InstructionData::Broadcast(z, _, _) => f.values@[z as int] is Result
            && f.insts@[f.values@[z as int]->inst as int] == InstructionData::Constant(Bits64(0)),
        _ => false,
    }
}

impl Function {
    /// Broadcasts the scalar `v` to type `target`; to a scalar type it is
    /// `v` itself.
    pub fn broadcast_to(&mut self, v: Value, target: Ty) -> (r: Value)
        requires
            old(self).wf(),
            v < old(self).values@.len(),
            target < old(self).spec_types().len(),
            old(self).value_ty_data(v as int) == TyData::spec_scalar(),
        ensures
            grows(old(self), final(self)),
            r < final(self).values@.len(),
            final(self).value_ty_data(r as int) == old(self).spec_types()[target as int],
            r == v || (r == old(self).values@.len() && final(self).values@[r as int] is Result && {
                let d = final(self).insts@[final(self).values@[r as int]->inst as int];
                d is Broadcast && d->Broadcast_0 == v && d->Broadcast_1 == target
            }),
            final(self).layout@.len() <= old(self).layout@.len() + 1,
    {
        proof {
            assert(self.values@[v as int].spec_ty() < self.spec_types().len());
        }
        if self.types[self.values[v].ty()].same(&self.types[target]) {
            proof {
                assert(self.values@[v as int].spec_ty() == target) by {
                    let t = self.values@[v as int].spec_ty();
                    assert(self.spec_types()[t as int] == self.spec_types()[target as int]);
                }
                assert(old(self).values@.is_prefix_of(self.values@));
                assert(old(self).insts@.is_prefix_of(self.insts@));
                assert(old(self).spec_types().is_prefix_of(self.spec_types()));
            }
            return v;
        }
        let d = InstructionData::Broadcast(v, target, DimMap::of_scalar());
        let inst = self.insts.len();
        self.insts.push(d);
        let r = self.values.len();
        self.values.push(ValueData::Result { ty: target, inst });
        self.results.push(r);
        self.layout.push(inst);
        proof {
            assert forall|i: int| 0 <= i < self.insts@.len() implies #[trigger] self.results@[i]
                < self.values@.len() && self.values@[self.results@[i] as int] is Result
                && self.values@[self.results@[i] as int]->inst == i by {
                if i < inst {
                    assert(self.results@[i] == old(self).results@[i]);
                }
            }
            assert forall|w: int|
                0 <= w < self.values@.len() && (#[trigger] self.values@[w]) is Result implies self.values@[w]->inst
                < self.insts@.len() && self.results@[self.values@[w]->inst as int] == w && operands_below(
                self.insts@[self.values@[w]->inst as int],
                w,
            ) by {
                if w < r {
                    assert(self.values@[w] == old(self).values@[w]);
                    assert(self.insts@[self.values@[w]->inst as int] == old(self).insts@[old(
                        self,
                    ).values@[w]->inst as int]);
                }
            }
            assert forall|w: int| 0 <= w < self.values@.len() implies (#[trigger] self.values@[w]).spec_ty()
                < self.spec_types().len() by {
                if w < r {
                    assert(self.values@[w] == old(self).values@[w]);
                }
            }
            assert forall|k: int| 0 <= k < self.params@.len() implies #[trigger] self.params@[k]
                < self.values@.len() && self.values@[self.params@[k] as int] is Param
                && self.values@[self.params@[k] as int]->num == k by {
                assert(self.values@[self.params@[k] as int] == old(self).values@[self.params@[k] as int]);
            }
            assert(old(self).values@.is_prefix_of(self.values@));
            assert(old(self).insts@.is_prefix_of(self.insts@));
            assert(old(self).spec_types().is_prefix_of(self.spec_types()));
        }
        r
    }
}

/// `new` extends `old`: values, instructions and types are kept in place,
/// parameters and returns are unchanged.
pub open spec fn grows(old: &Function, new: &Function) -> bool {
    &&& new.wf()
    &&& old.values@.is_prefix_of(new.values@)
    &&& old.insts@.is_prefix_of(new.insts@)
    &&& old.spec_types().is_prefix_of(new.spec_types())
    &&& new.params@ == old.params@
    &&& new.returns@ == old.returns@
}

/// What a value computes depends only on the values and instructions
/// before it.
pub proof fn lemma_value_sym_prefix(
    vs: Seq<ValueData>,
    is: Seq<InstructionData>,
    vs2: Seq<ValueData>,
    is2: Seq<InstructionData>,
    v: int,
)
    requires
        vs.is_prefix_of(vs2),
        is.is_prefix_of(is2),
        0 <= v < vs.len(),
        forall|w: int|
            0 <= w < vs.len() && (#[trigger] vs[w]) is Result ==> vs[w]->inst < is.len(),
    ensures
        value_sym(vs2, is2, v) == value_sym(vs, is, v),
    decreases v,
{
    assert(vs2[v] == vs[v]);
    match vs[v] {
        ValueData::Result { inst, .. } => {
            assert(is2[inst as int] == is[inst as int]);
            match is[inst as int] {
                InstructionData::Unary(_, a) => {
                    if a < v {
                        lemma_value_sym_prefix(vs, is, vs2, is2, a as int);
                    }
                },
                InstructionData::Binary(_, a, b) => {
                    if a < v && b < v {
                        lemma_value_sym_prefix(vs, is, vs2, is2, a as int);
                        lemma_value_sym_prefix(vs, is, vs2, is2, b as int);
                    }
                },
                _ => {},
            }
        },
        _ => {},
    }
}

/// Growing a function keeps what its values compute and their types.
pub proof fn lemma_grows(old: &Function, new: &Function, v: int)
    requires
        old.wf(),
        grows(old, new),
        0 <= v < old.values@.len(),
    ensures
        new.sym(v) == old.sym(v),
        new.value_ty_data(v) == old.value_ty_data(v),
        new.values@[v] == old.values@[v],
{
    lemma_value_sym_prefix(old.values@, old.insts@, new.values@, new.insts@, v);
    assert(new.values@[v] == old.values@[v]);
    assert(old.values@[v].spec_ty() < old.spec_types().len());
    assert(new.spec_types()[old.values@[v].spec_ty() as int] == old.spec_types()[old.values@[v].spec_ty() as int]);
}

/// In a well-formed function, values of equal type data have equal types.
pub proof fn lemma_same_type(f: &Function, a: int, b: int)
    requires
        f.wf(),
        0 <= a < f.values@.len(),
        0 <= b < f.values@.len(),
        f.value_ty_data(a) == f.value_ty_data(b),
    ensures
        f.values@[a].spec_ty() == f.values@[b].spec_ty(),
{
    let ta = f.values@[a].spec_ty() as int;
    let tb = f.values@[b].spec_ty() as int;
    if ta < tb {
        assert(f.spec_types()[ta] != f.spec_types()[tb]);
    } else if tb < ta {
        assert(f.spec_types()[tb] != f.spec_types()[ta]);
    }
}

impl Function {
    /// Emits `op(a)`.
    pub fn emit_unary(&mut self, op: UnaryOp, a: Value) -> (v: Value)
        requires
            old(self).wf(),
            a < old(self).values@.len(),
        ensures
            grows(old(self), final(self)),
            v == old(self).values@.len(),
            final(self).values@.len() == v + 1,
            final(self).sym(v as int) == un(op, old(self).sym(a as int)),
            final(self).value_ty_data(v as int) == old(self).value_ty_data(a as int),
            final(self).layout@ == old(self).layout@.push(old(self).insts@.len() as Inst),
    {
        let v = self.emit(InstructionData::Unary(op, a));
        proof {
            assert(old(self).values@.is_prefix_of(self.values@)) by {
                assert forall|w: int| 0 <= w < old(self).values@.len() implies self.values@[w] == old(
                    self,
                ).values@[w] by {}
            }
            lemma_grows(old(self), self, a as int);
        }
        v
    }

    /// Emits `op(a, b)`, where `a` and `b` have the same type.
    pub fn emit_binary(&mut self, op: BinaryOp, a: Value, b: Value) -> (v: Value)
        requires
            old(self).wf(),
            a < old(self).values@.len(),
            b < old(self).values@.len(),
            old(self).value_ty_data(a as int) == old(self).value_ty_data(b as int),
        ensures
            grows(old(self), final(self)),
            v == old(self).values@.len(),
            final(self).values@.len() == v + 1,
            final(self).sym(v as int) == bin(op, old(self).sym(a as int), old(self).sym(b as int)),
            final(self).value_ty_data(v as int) == old(self).value_ty_data(a as int),
            final(self).layout@ == old(self).layout@.push(old(self).insts@.len() as Inst),
    {
        proof {
            lemma_same_type(self, a as int, b as int);
        }
        let v = self.emit(InstructionData::Binary(op, a, b));
        proof {
            assert(old(self).values@.is_prefix_of(self.values@)) by {
                assert forall|w: int| 0 <= w < old(self).values@.len() implies self.values@[w] == old(
                    self,
                ).values@[w] by {}
            }
            lemma_grows(old(self), self, a as int);
            lemma_grows(old(self), self, b as int);
        }
        v
    }

    /// Emits the scalar constant `c`.
    pub fn emit_constant(&mut self, c: Bits64) -> (v: Value)
        requires
            old(self).wf(),
        ensures
            grows(old(self), final(self)),
            v == old(self).values@.len(),
            final(self).values@.len() == v + 1,
            final(self).sym(v as int) == Sym::Const(c),
            final(self).values@[v as int] is Result,
            final(self).insts@[final(self).values@[v as int]->inst as int] == InstructionData::Constant(c),
            final(self).value_ty_data(v as int) == TyData::spec_scalar(),
            final(self).layout@ == old(self).layout@.push(old(self).insts@.len() as Inst),
    {
        let v = self.emit(InstructionData::Constant(c));
        proof {
            assert(old(self).values@.is_prefix_of(self.values@)) by {
                assert forall|w: int| 0 <= w < old(self).values@.len() implies self.values@[w] == old(
                    self,
                ).values@[w] by {}
            }
        }
        v
    }
}


impl Function {
    /// Checks that the function is well formed.
    pub fn check(&self) -> (r: bool)
        ensures
            r == self.wf(),
    {
        let nt = self.types.len();
        let mut i: usize = 0;
        while i < nt
            invariant
                nt == self.types@.len(),
                i <= nt,
                forall|a: int, b: int| 0 <= a < b < nt && a < i ==> self.types@[a] != self.types@[b],
            decreases nt - i,
        {
            let mut j: usize = i + 1;
            while j < nt
                invariant
                    nt == self.types@.len(),
                    i < nt,
                    i + 1 <= j <= nt,
                    forall|a: int, b: int| 0 <= a < b < nt && a < i ==> self.types@[a] != self.types@[b],
                    forall|b: int| i < b < j ==> self.types@[i as int] != self.types@[b],
                decreases nt - j,
            {
                if self.types[i].same(&self.types[j]) {
                    return false;
                }
                j += 1;
            }
            i += 1;
        }
        if self.results.len() != self.insts.len() {
            return false;
        }
        let nv = self.values.len();
        let ni = self.insts.len();
        let mut i: usize = 0;
        while i < ni
            invariant
                ni == self.insts@.len(),
                nv == self.values@.len(),
                self.results@.len() == ni,
                i <= ni,
                forall|k: int|
                    0 <= k < i ==> #[trigger] self.results@[k] < nv && self.values@[self.results@[k] as int] is Result
                        && self.values@[self.results@[k] as int]->inst == k,
            decreases ni - i,
        {
            let r = self.results[i];
            if r >= nv {
                return false;
            }
            match self.values[r] {
                ValueData::Result { inst, .. } => {
                    if inst != i {
                        return false;
                    }
                },
                _ => {
                    return false;
                },
            }
            i += 1;
        }
        let mut v: usize = 0;
        while v < nv
            invariant
                ni == self.insts@.len(),
                nv == self.values@.len(),
                nt == self.types@.len(),
                self.results@.len() == ni,
                v <= nv,
                forall|w: int| 0 <= w < v ==> (#[trigger] self.values@[w]).spec_ty() < nt,
                forall|w: int|
                    0 <= w < v && (#[trigger] self.values@[w]) is Result ==> self.values@[w]->inst < ni
                        && self.results@[self.values@[w]->inst as int] == w && operands_below(
                        self.insts@[self.values@[w]->inst as int],
                        w,
                    ),
            decreases nv - v,
        {
            if self.values[v].ty() >= nt {
                return false;
            }
            match self.values[v] {
                ValueData::Result { inst, .. } => {
                    if inst >= ni {
                        return false;
                    }
                    if self.results[inst] != v {
                        return false;
                    }
                    let ok = match self.insts[inst] {
                        InstructionData::Constant(_) => true,
                        InstructionData::Unary(_, a) => a < v,
                        InstructionData::Binary(_, a, b) => a < v && b < v,
                        InstructionData::Broadcast(a, _, _) => a < v,
                        InstructionData::Reduce(_, a, _) => a < v,
                    };
                    if !ok {
                        return false;
                    }
                },
                _ => {},
            }
            v += 1;
        }
        let mut k: usize = 0;
        while k < self.params.len()
            invariant
                nv == self.values@.len(),
                k <= self.params@.len(),
                forall|k2: int|
                    0 <= k2 < k ==> #[trigger] self.params@[k2] < nv && self.values@[self.params@[k2] as int] is Param
                        && self.values@[self.params@[k2] as int]->num == k2,
            decreases self.params@.len() - k,
        {
            let p = self.params[k];
            if p >= nv {
                return false;
            }
            match self.values[p] {
                ValueData::Param { num, .. } => {
                    if num as usize != k {
                        return false;
                    }
                },
                _ => {
                    return false;
                },
            }
            k += 1;
        }
        let mut p: usize = 0;
        while p < self.layout.len()
            invariant
                ni == self.insts@.len(),
                p <= self.layout@.len(),
                forall|p2: int| 0 <= p2 < p ==> #[trigger] self.layout@[p2] < ni,
            decreases self.layout@.len() - p,
        {
            if self.layout[p] >= ni {
                return false;
            }
            p += 1;
        }
        let mut k: usize = 0;
        while k < self.returns.len()
            invariant
                nv == self.values@.len(),
                k <= self.returns@.len(),
                forall|k2: int| 0 <= k2 < k ==> #[trigger] self.returns@[k2] < nv,
            decreases self.returns@.len() - k,
        {
            if self.returns[k] >= nv {
                return false;
            }
            k += 1;
        }
        true
    }
}

} // verus!
