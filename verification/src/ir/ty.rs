//! Array types of the IR.
use vstd::prelude::*;

verus! {

/// Largest rank of an array type.
pub const MAX_RANK: usize = 8;

/// Index of an interned type.
pub type Ty = usize;

/// An array type: its rank and its dimension sizes. Dimensions past the
/// rank are zero, so that equal types have equal data.
#[derive(Clone, Copy, PartialEq, Eq, Hash, Debug)]
pub struct TyData {
    /// Number of dimensions.
    rank: u8,
    /// The dimension sizes.
    dims: [u32; 8],
}

impl TyData {
    #[verifier::type_invariant]
    closed spec fn inv(self) -> bool {
        &&& self.rank <= 8
        &&& forall|i: int| self.rank <= i < 8 ==> #[trigger] self.dims@[i] == 0
    }

    /// The dimension sizes, outermost first.
    pub closed spec fn spec_dims(self) -> Seq<u32> {
        self.dims@.subrange(0, self.rank as int)
    }

    /// Types with the same dimensions are the same type.
    proof fn lemma_dims_determine(a: TyData, b: TyData)
        requires
            a.inv(),
            b.inv(),
            a.spec_dims() == b.spec_dims(),
        ensures
            a == b,
    {
        assert(a.dims@.len() == 8 && b.dims@.len() == 8);
        assert(a.spec_dims().len() == a.rank);
        assert(b.spec_dims().len() == b.rank);
        assert(a.rank == b.rank);
        assert(a.dims@ =~= b.dims@) by {
            assert forall|i: int| 0 <= i < 8 implies a.dims@[i] == b.dims@[i] by {
                if i < a.rank {
                    assert(a.spec_dims()[i] == a.dims@[i]);
                    assert(b.spec_dims()[i] == b.dims@[i]);
                } else {
                    assert(a.dims@[i] == 0);
                    assert(b.dims@[i] == 0);
                }
            }
        }
        assert(a.dims =~= b.dims);
    }

    /// The type with one more dimension, of size `n`, in front.
    pub closed spec fn spec_prepend(self, n: u32) -> TyData {
        choose|t: TyData| t.inv() && t.spec_dims() == seq![n] + self.spec_dims()
    }

    /// `self` and `other` are the same type.
    pub fn same(&self, other: &TyData) -> (r: bool)
        ensures
            r == (*self == *other),
            // Type data are the same exactly when their dimensions are.
            r == (self.spec_dims() == other.spec_dims()),
    {
        proof {
            use_type_invariant(self);
            use_type_invariant(other);
            if self.spec_dims() == other.spec_dims() {
                TyData::lemma_dims_determine(*self, *other);
            }
        }
        if self.rank != other.rank {
            return false;
        }
        let mut i: usize = 0;
        while i < 8
            invariant
                i <= 8,
                self.rank == other.rank,
                self.inv(),
                other.inv(),
                forall|j: int| 0 <= j < i ==> self.dims@[j] == other.dims@[j],
            decreases 8 - i,
        {
            if self.dims[i] != other.dims[i] {
                proof {
                    assert((i as int) < self.rank);
                    assert(self.spec_dims()[i as int] != other.spec_dims()[i as int]);
                }
                return false;
            }
            i += 1;
        }
        proof {
            assert(self.dims@ =~= other.dims@);
            assert(self.dims =~= other.dims);
        }
        true
    }

    /// The scalar type, of rank zero.
    pub closed spec fn spec_scalar() -> TyData {
        TyData { rank: 0, dims: vstd::array::spec_array_fill_for_copy_type::<u32, 8>(0u32) }
    }

    /// The scalar type, of rank zero.
    pub fn scalar() -> (t: TyData)
        ensures
            t == TyData::spec_scalar(),
            t.spec_dims() == Seq::<u32>::empty(),
    {
        let t = TyData { rank: 0, dims: [0u32; 8] };
        proof {
            assert(t.dims@.subrange(0, 0) =~= Seq::<u32>::empty());
        }
        t
    }

    pub fn dims(&self) -> (r: &[u32])
        ensures
            r@ == self.spec_dims(),
    {
        proof {
            use_type_invariant(self);
        }
        let s: &[u32] = self.dims.as_slice();
        &s[0..self.rank as usize]
    }

    pub fn is_scalar(self) -> (r: bool)
        ensures
            r == (self.spec_dims().len() == 0),
    {
        proof {
            use_type_invariant(self);
        }
        self.rank == 0
    }

    /// The type with one more dimension, of size `n`, in front.
    pub fn prepend(self, n: u32) -> (t: TyData)
        requires
            self.spec_dims().len() < MAX_RANK,
        ensures
            t.spec_dims() == seq![n] + self.spec_dims(),
            t == self.spec_prepend(n),
    {
        proof {
            use_type_invariant(self);
        }
        let r = self.rank as usize;
        let mut dims = [0u32; 8];
        dims[0] = n;
        let mut i: usize = 0;
        while i < r
            invariant
                r == self.rank,
                r < 8,
                i <= r,
                dims@[0] == n,
                forall|j: int| 0 <= j < i ==> #[trigger] dims@[j + 1] == self.dims@[j],
                forall|j: int| i + 1 <= j < 8 ==> #[trigger] dims@[j] == 0,
            decreases r - i,
        {
            dims[i + 1] = self.dims[i];
            i += 1;
        }
        let t = TyData { rank: self.rank + 1, dims };
        proof {
            assert(t.spec_dims() =~= seq![n] + self.spec_dims()) by {
                assert forall|j: int| 0 <= j < t.spec_dims().len() implies t.spec_dims()[j] == (seq![n]
                    + self.spec_dims())[j] by {
                    if j > 0 {
                        assert(dims@[(j - 1) + 1] == self.dims@[j - 1]);
                    }
                }
            }
        }
        proof {
            use_type_invariant(&t);
            let c = self.spec_prepend(n);
            assert(c.inv() && c.spec_dims() == seq![n] + self.spec_dims());
            TyData::lemma_dims_determine(c, t);
        }
        t
    }
}

/// A set of dimension indices, stored as a bitmask.
#[derive(Clone, Copy, PartialEq, Eq, Hash, Debug, Default, Structural)]
pub struct DimSet(pub u8);

/// Maps source dimension `i` to output dimension `map[i]`. Entries past
/// `len` are zero, so that equal maps have equal data.
#[derive(Clone, Copy, PartialEq, Eq, Hash, Debug)]
pub struct DimMap {
    len: u8,
    map: [u8; 8],
}

impl DimMap {
    /// The map of a scalar, which has no dimension to place.
    pub fn of_scalar() -> DimMap {
        DimMap { len: 0, map: [0u8; 8] }
    }
}

} // verus!
